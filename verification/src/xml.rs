//! Laying out XML: the document is cut into its pieces as written, checked for balance, and
//! put back together one piece to a line.

use vstd::prelude::*;
use vstd::string::*;

use crate::text::{
    self, blank, chars_of, holds, part, place_of, position, push_all, same_chars, space, string_of,
    trimmed,
};

verus! {

/// One piece of a document as it was written.
pub enum Piece {
    Open { name: Vec<char>, text: Vec<char> },
    Close { name: Vec<char>, text: Vec<char> },
    /// A self-closing element, a comment, a declaration, CDATA, a DOCTYPE.
    Whole(Vec<char>),
    Text(Vec<char>),
}

/// One piece of a document, as the characters it holds.
pub enum Part {
    Open { name: Seq<char>, text: Seq<char> },
    Close { name: Seq<char>, text: Seq<char> },
    Whole(Seq<char>),
    Text(Seq<char>),
}

impl View for Piece {
    type V = Part;

    open spec fn view(&self) -> Part {
        match self {
            Piece::Open { name, text } => Part::Open { name: name@, text: text@ },
            Piece::Close { name, text } => Part::Close { name: name@, text: text@ },
            Piece::Whole(text) => Part::Whole(text@),
            Piece::Text(text) => Part::Text(text@),
        }
    }
}

/// The parts several pieces are.
pub open spec fn parts(pieces: Seq<Piece>) -> Seq<Part> {
    pieces.map_values(|piece: Piece| piece@)
}

// ---- Cutting a document into its pieces ----

/// Whether a tag is a declaration, such as a DOCTYPE.
pub open spec fn declares(s: Seq<char>) -> bool {
    s.len() > 1 && s[1] == '!'
}

/// Where the tag being read at `at` ends: after the first `>` outside quotes and brackets;
/// nowhere when a `<` or the end of the text comes first. A declaration may hold others in its
/// brackets, so a `<` there is one of its own.
pub open spec fn tag_end(s: Seq<char>, at: int, quote: Option<char>, brackets: nat) -> Option<int>
    decreases s.len() - at,
{
    if at >= s.len() {
        None
    } else {
        let c = s[at];
        match quote {
            Some(open) => tag_end(
                s,
                at + 1,
                if c == open {
                    None
                } else {
                    quote
                },
                brackets,
            ),
            None => if c == '"' || c == '\'' {
                tag_end(s, at + 1, Some(c), brackets)
            } else if c == '[' {
                tag_end(s, at + 1, None, brackets + 1)
            } else if c == ']' {
                tag_end(
                    s,
                    at + 1,
                    None,
                    if brackets == 0 {
                        0
                    } else {
                        (brackets - 1) as nat
                    },
                )
            } else if c == '>' && brackets == 0 {
                Some(at + 1)
            } else if c == '<' && !(declares(s) && brackets > 0) {
                None
            } else {
                tag_end(s, at + 1, None, brackets)
            },
        }
    }
}

/// The text without the `>` it ends with.
pub open spec fn without_closers(s: Seq<char>) -> Seq<char>
    decreases s.len(),
{
    if s.len() > 0 && s.last() == '>' {
        without_closers(s.drop_last())
    } else {
        s
    }
}

/// How many characters come before the first white space.
pub open spec fn word_length(s: Seq<char>) -> nat
    decreases s.len(),
{
    if s.len() == 0 || text::is_space(s.first()) {
        0
    } else {
        1 + word_length(s.skip(1))
    }
}

/// The text up to its first white space.
pub open spec fn first_word(s: Seq<char>) -> Seq<char> {
    s.take(word_length(s) as int)
}

/// Why a document is refused, after the words every refusal starts with.
pub open spec fn refusal(why: Seq<char>) -> Seq<char> {
    "Not valid XML, left as it was: "@ + why
}

/// The refusal of something that is never ended.
pub open spec fn unterminated(what: Seq<char>) -> Seq<char> {
    refusal("unterminated "@ + what)
}

/// What a whole tag is: its kind, and its name where it has one.
pub open spec fn tag_part(tag: Seq<char>) -> Result<Part, Seq<char>> {
    if text::starts_with(tag, seq!['<', '!']) || text::ends_with(tag, seq!['/', '>']) {
        Ok(Part::Whole(tag))
    } else if text::starts_with(tag, seq!['<', '/']) {
        Ok(Part::Close { name: text::trim(without_closers(tag.skip(2))), text: tag })
    } else {
        let name = first_word(tag.subrange(1, tag.len() - 1));
        if name.len() == 0 {
            Err(refusal("a tag with no name"@))
        } else {
            Ok(Part::Open { name, text: tag })
        }
    }
}

/// What is only read up to the words that end it.
pub open spec fn up_to(s: Seq<char>, end: Seq<char>, what: Seq<char>) -> Result<
    (Part, int),
    Seq<char>,
> {
    match text::find(s, end, 0) {
        Some(at) => Ok((Part::Whole(s.take(at + end.len())), at + end.len())),
        None => Err(unterminated(what)),
    }
}

/// The piece a text that starts with `<` starts with, and its length.
#[verifier::opaque]
pub open spec fn markup(s: Seq<char>) -> Result<(Part, int), Seq<char>> {
    if text::starts_with(s, seq!['<', '!', '-', '-']) {
        up_to(s, seq!['-', '-', '>'], "comment"@)
    } else if text::starts_with(s, seq!['<', '!', '[', 'C', 'D', 'A', 'T', 'A', '[']) {
        up_to(s, seq![']', ']', '>'], "CDATA section"@)
    } else if text::starts_with(s, seq!['<', '?']) {
        up_to(s, seq!['?', '>'], "declaration"@)
    } else {
        match tag_end(s, 1, None, 0) {
            None => Err(unterminated("tag"@)),
            Some(end) => match tag_part(s.take(end)) {
                Ok(part) => Ok((part, end)),
                Err(why) => Err(why),
            },
        }
    }
}

/// The text before the first `<`, as a piece unless it is only white space.
pub open spec fn leading_text(s: Seq<char>) -> Seq<Part> {
    let text = s.take(text::index_of(s, '<'));
    if text::trim(text).len() == 0 {
        Seq::empty()
    } else {
        seq![Part::Text(text)]
    }
}

/// The pieces of a document in order, text that is only white space left out; or why it
/// cannot be cut into pieces.
pub open spec fn cut(s: Seq<char>) -> Result<Seq<Part>, Seq<char>>
    decreases s.len(),
    via cut_decreases
{
    let start = text::index_of(s, '<');
    if start == s.len() {
        Ok(leading_text(s))
    } else {
        match markup(s.skip(start)) {
            Err(why) => Err(why),
            Ok((part, length)) => match cut(s.skip(start + length)) {
                Err(why) => Err(why),
                Ok(rest) => Ok(leading_text(s) + seq![part] + rest),
            },
        }
    }
}

#[via_fn]
proof fn cut_decreases(s: Seq<char>) {
    text::lemma_index_of(s, '<');
    let start = text::index_of(s, '<');
    if start < s.len() {
        lemma_markup_length(s.skip(start));
    }
}

proof fn lemma_tag_end(s: Seq<char>, at: int, quote: Option<char>, brackets: nat)
    requires
        0 <= at,
    ensures
        tag_end(s, at, quote, brackets) matches Some(end) ==> at < end <= s.len() && s[end - 1]
            == '>',
    decreases s.len() - at,
{
    if at < s.len() {
        let c = s[at];
        match quote {
            Some(open) => lemma_tag_end(
                s,
                at + 1,
                if c == open {
                    None
                } else {
                    quote
                },
                brackets,
            ),
            None => {
                lemma_tag_end(s, at + 1, Some(c), brackets);
                lemma_tag_end(s, at + 1, None, brackets + 1);
                lemma_tag_end(s, at + 1, None, brackets);
                if brackets > 0 {
                    lemma_tag_end(s, at + 1, None, (brackets - 1) as nat);
                }
            },
        }
    }
}

proof fn lemma_markup_length(s: Seq<char>)
    ensures
        markup(s) matches Ok((part, length)) ==> 2 <= length <= s.len() && s[length - 1] == '>',
{
    reveal(markup);
    text::lemma_find(s, seq!['-', '-', '>'], 0);
    text::lemma_find(s, seq![']', ']', '>'], 0);
    text::lemma_find(s, seq!['?', '>'], 0);
    lemma_tag_end(s, 1, None, 0);
    if text::starts_with(s, seq!['<', '!', '-', '-']) {
        if let Some(at) = text::find(s, seq!['-', '-', '>'], 0) {
            assert(s.subrange(at, at + 3)[2] == '>');
        }
    } else if text::starts_with(s, seq!['<', '!', '[', 'C', 'D', 'A', 'T', 'A', '[']) {
        if let Some(at) = text::find(s, seq![']', ']', '>'], 0) {
            assert(s.subrange(at, at + 3)[2] == '>');
        }
    } else if text::starts_with(s, seq!['<', '?']) {
        if let Some(at) = text::find(s, seq!['?', '>'], 0) {
            assert(s.subrange(at, at + 2)[1] == '>');
        }
    }
}

/// Where the tag that starts at `at` ends.
fn end_of_tag(s: &Vec<char>, at: usize) -> (end: Option<usize>)
    requires
        at < s.len(),
    ensures
        match end {
            Some(end) => at + 1 < end <= s.len() && tag_end(s@.skip(at as int), 1, None, 0) == Some(
                end - at,
            ),
            None => tag_end(s@.skip(at as int), 1, None, 0) is None,
        },
{
    let ghost t = s@.skip(at as int);
    let mut i: usize = at + 1;
    let mut quote: Option<char> = None;
    let mut brackets: usize = 0;
    let declaring = i < s.len() && s[i] == '!';
    while i < s.len()
        invariant
            at < i <= s.len(),
            brackets <= i,
            t == s@.skip(at as int),
            declaring == declares(t),
            tag_end(t, 1, None, 0) == tag_end(t, i - at, quote, brackets as nat),
        decreases s.len() - i,
    {
        let c = s[i];
        assert(t[i - at] == c);
        match quote {
            Some(open) => {
                if c == open {
                    quote = None;
                }
            },
            None => {
                if c == '"' || c == '\'' {
                    quote = Some(c);
                } else if c == '[' {
                    brackets += 1;
                } else if c == ']' {
                    if brackets > 0 {
                        brackets -= 1;
                    }
                } else if c == '>' && brackets == 0 {
                    return Some(i + 1);
                } else if c == '<' && !(declaring && brackets > 0) {
                    return None;
                }
            },
        }
        i += 1;
    }
    None
}

/// The characters without the `>` they end with.
fn drop_closers(s: &Vec<char>) -> (t: Vec<char>)
    ensures
        t@ == without_closers(s@),
{
    let mut n: usize = s.len();
    assert(s@.take(n as int) == s@);
    while n > 0 && s[n - 1] == '>'
        invariant
            n <= s.len(),
            without_closers(s@) == without_closers(s@.take(n as int)),
        decreases n,
    {
        assert(s@.take(n as int).drop_last() == s@.take(n - 1));
        n -= 1;
    }
    assert(s@.take(n as int) == s@.subrange(0, n as int));
    part(s, 0, n)
}

/// The characters up to the first white space.
fn word(s: &Vec<char>) -> (t: Vec<char>)
    ensures
        t@ == first_word(s@),
{
    let mut n: usize = 0;
    assert(s@.skip(0) == s@);
    while n < s.len() && !space(s[n])
        invariant
            n <= s.len(),
            word_length(s@) == n + word_length(s@.skip(n as int)),
        decreases s.len() - n,
    {
        assert(s@.skip(n as int).skip(1) == s@.skip(n + 1));
        n += 1;
    }
    assert(s@.take(n as int) == s@.subrange(0, n as int));
    part(s, 0, n)
}

/// Writes a refusal.
fn refuse(why: &str) -> (reason: String)
    ensures
        reason@ == refusal(why@),
{
    let mut reason = "Not valid XML, left as it was: ".to_owned();
    reason.append(why);
    reason
}

/// Writes the refusal of something that is never ended.
fn refuse_unterminated(what: &str) -> (reason: String)
    ensures
        reason@ == unterminated(what@),
{
    let mut why = "unterminated ".to_owned();
    why.append(what);
    refuse(why.as_str())
}

/// What a whole tag is.
fn read_tag(tag: Vec<char>) -> (piece: Result<Piece, String>)
    requires
        tag.len() >= 2,
    ensures
        match piece {
            Ok(piece) => tag_part(tag@) == Ok::<Part, Seq<char>>(piece@),
            Err(reason) => tag_part(tag@) == Err::<Part, Seq<char>>(reason@),
        },
{
    let declared = vec!['<', '!'];
    let closed = vec!['/', '>'];
    let closes = vec!['<', '/'];
    assert(declared@ =~= seq!['<', '!']);
    assert(closed@ =~= seq!['/', '>']);
    assert(closes@ =~= seq!['<', '/']);
    if holds(&tag, &declared, 0) || holds(&tag, &closed, tag.len() - 2) {
        return Ok(Piece::Whole(tag));
    }
    if holds(&tag, &closes, 0) {
        let body = part(&tag, 2, tag.len());
        assert(body@ =~= tag@.skip(2));
        let name = trimmed(&drop_closers(&body));
        return Ok(Piece::Close { name, text: tag });
    }
    let name = word(&part(&tag, 1, tag.len() - 1));
    if name.len() == 0 {
        return Err(refuse("a tag with no name"));
    }
    Ok(Piece::Open { name, text: tag })
}

/// What is only read from `at` up to the words that end it.
fn read_up_to(s: &Vec<char>, at: usize, end: &Vec<char>, what: &str) -> (piece: Result<
    (Piece, usize),
    String,
>)
    requires
        at <= s.len(),
    ensures
        match piece {
            Ok((piece, length)) => up_to(s@.skip(at as int), end@, what@) == Ok::<
                (Part, int),
                Seq<char>,
            >((piece@, length as int)),
            Err(reason) => up_to(s@.skip(at as int), end@, what@) == Err::<(Part, int), Seq<char>>(
                reason@,
            ),
        },
{
    let rest = part(s, at, s.len());
    assert(rest@ =~= s@.skip(at as int));
    match position(&rest, end, 0) {
        Some(found) => {
            proof {
                text::lemma_find(rest@, end@, 0);
            }
            let length = found + end.len();
            let whole = part(&rest, 0, length);
            assert(whole@ =~= rest@.take(length as int));
            Ok((Piece::Whole(whole), length))
        },
        None => Err(refuse_unterminated(what)),
    }
}

/// The piece that starts with the `<` at `at`, and its length.
fn read_markup(s: &Vec<char>, at: usize) -> (piece: Result<(Piece, usize), String>)
    requires
        at < s.len(),
    ensures
        match piece {
            Ok((piece, length)) => markup(s@.skip(at as int)) == Ok::<(Part, int), Seq<char>>(
                (piece@, length as int),
            ),
            Err(reason) => markup(s@.skip(at as int)) == Err::<(Part, int), Seq<char>>(reason@),
        },
{
    proof {
        reveal(markup);
    }
    let rest = part(s, at, s.len());
    assert(rest@ =~= s@.skip(at as int));
    let comment = vec!['<', '!', '-', '-'];
    let cdata = vec!['<', '!', '[', 'C', 'D', 'A', 'T', 'A', '['];
    let declaration = vec!['<', '?'];
    assert(comment@ =~= seq!['<', '!', '-', '-']);
    assert(cdata@ =~= seq!['<', '!', '[', 'C', 'D', 'A', 'T', 'A', '[']);
    assert(declaration@ =~= seq!['<', '?']);
    if holds(&rest, &comment, 0) {
        let end = vec!['-', '-', '>'];
        assert(end@ =~= seq!['-', '-', '>']);
        return read_up_to(s, at, &end, "comment");
    }
    if holds(&rest, &cdata, 0) {
        let end = vec![']', ']', '>'];
        assert(end@ =~= seq![']', ']', '>']);
        return read_up_to(s, at, &end, "CDATA section");
    }
    if holds(&rest, &declaration, 0) {
        let end = vec!['?', '>'];
        assert(end@ =~= seq!['?', '>']);
        return read_up_to(s, at, &end, "declaration");
    }
    match end_of_tag(s, at) {
        None => Err(refuse_unterminated("tag")),
        Some(end) => {
            let tag = part(s, at, end);
            assert(tag@ =~= s@.skip(at as int).take(end - at));
            match read_tag(tag) {
                Ok(piece) => Ok((piece, end - at)),
                Err(reason) => Err(reason),
            }
        },
    }
}

/// Cuts a document into its pieces; text that is only white space is dropped.
pub fn xml_pieces(text: &str) -> (pieces: Result<Vec<Piece>, String>)
    ensures
        match pieces {
            Ok(pieces) => cut(text@) == Ok::<Seq<Part>, Seq<char>>(parts(pieces@)),
            Err(reason) => cut(text@) == Err::<Seq<Part>, Seq<char>>(reason@),
        },
{
    let s = chars_of(text);
    let mut pieces: Vec<Piece> = Vec::new();
    let mut i: usize = 0;
    assert(s@.skip(0) == s@);
    loop
        invariant
            i <= s.len(),
            s@ == text@,
            match cut(s@.skip(i as int)) {
                Ok(rest) => cut(s@) == Ok::<Seq<Part>, Seq<char>>(parts(pieces@) + rest),
                Err(why) => cut(s@) == Err::<Seq<Part>, Seq<char>>(why),
            },
        decreases s.len() - i,
    {
        let ghost rest = s@.skip(i as int);
        let ghost before = pieces@;
        proof {
            text::lemma_index_of(rest, '<');
        }
        let start = place_of(&s, '<', i);
        let lead = part(&s, i, start);
        assert(lead@ =~= rest.take(text::index_of(rest, '<')));
        if !blank(&lead) {
            pieces.push(Piece::Text(lead));
        }
        assert(parts(pieces@) =~= parts(before) + leading_text(rest));
        if start == s.len() {
            return Ok(pieces);
        }
        assert(rest.skip(start - i) == s@.skip(start as int));
        match read_markup(&s, start) {
            Err(reason) => {
                return Err(reason);
            },
            Ok((piece, length)) => {
                proof {
                    lemma_markup_length(s@.skip(start as int));
                    assert(rest.skip(start - i + length) == s@.skip(start + length));
                }
                let ghost lead_parts = parts(pieces@);
                pieces.push(piece);
                assert(parts(pieces@) =~= lead_parts + seq![piece@]);
                i = start + length;
                proof {
                    if let Ok(more) = cut(s@.skip(i as int)) {
                        assert(parts(before) + (leading_text(rest) + seq![piece@] + more) =~= parts(
                            pieces@,
                        ) + more);
                    }
                }
            },
        }
    }
}

// ---- Whether every element is closed ----

/// Why the tags do not balance, `open` being the elements open so far; nothing when every
/// one is closed by the tag of its own name.
pub open spec fn unbalanced(ps: Seq<Part>, open: Seq<Seq<char>>) -> Option<Seq<char>>
    decreases ps.len(),
{
    if ps.len() == 0 {
        if open.len() == 0 {
            None
        } else {
            Some(refusal("<"@ + open.last() + "> is never closed"@))
        }
    } else {
        match ps[0] {
            Part::Open { name, text } => unbalanced(ps.skip(1), open.push(name)),
            Part::Close { name, text } => if open.len() == 0 {
                Some(refusal("</"@ + name + "> closes nothing"@))
            } else if open.last() == name {
                unbalanced(ps.skip(1), open.drop_last())
            } else {
                Some(refusal("</"@ + name + "> closes <"@ + open.last() + ">"@))
            },
            _ => unbalanced(ps.skip(1), open),
        }
    }
}

/// The names several runs of characters are.
spec fn names(open: Seq<Vec<char>>) -> Seq<Seq<char>> {
    open.map_values(|name: Vec<char>| name@)
}

/// A copy of some characters.
fn copied(s: &Vec<char>) -> (t: Vec<char>)
    ensures
        t@ == s@,
{
    let t = part(s, 0, s.len());
    assert(t@ =~= s@);
    t
}

/// Checks that every element is closed by the tag of its own name.
fn check_balance(pieces: &Vec<Piece>) -> (fault: Option<String>)
    ensures
        text::optional(fault) == unbalanced(parts(pieces@), Seq::empty()),
{
    let ghost ps = parts(pieces@);
    let mut open: Vec<Vec<char>> = Vec::new();
    assert(ps.skip(0) == ps);
    assert(names(open@) =~= Seq::empty());
    for i in 0..pieces.len()
        invariant
            ps == parts(pieces@),
            unbalanced(ps, Seq::empty()) == unbalanced(ps.skip(i as int), names(open@)),
    {
        let ghost before = open@;
        assert(ps.skip(i as int)[0] == pieces@[i as int]@);
        assert(ps.skip(i as int).skip(1) == ps.skip(i + 1));
        match &pieces[i] {
            Piece::Open { name, text } => {
                open.push(copied(name));
                assert(names(open@) =~= names(before).push(name@));
            },
            Piece::Close { name, text } => {
                match open.pop() {
                    None => {
                        assert(names(before).len() == 0);
                        let mut why = "</".to_owned();
                        why.append(string_of(name).as_str());
                        why.append("> closes nothing");
                        return Some(refuse(why.as_str()));
                    },
                    Some(expected) => {
                        assert(names(before).last() == expected@);
                        if !same_chars(&expected, name) {
                            let mut why = "</".to_owned();
                            why.append(string_of(name).as_str());
                            why.append("> closes <");
                            why.append(string_of(&expected).as_str());
                            why.append(">");
                            return Some(refuse(why.as_str()));
                        }
                        assert(names(open@) =~= names(before).drop_last());
                    },
                }
            },
            Piece::Whole(_) => {},
            Piece::Text(_) => {},
        }
    }
    assert(ps.skip(ps.len() as int).len() == 0);
    if open.len() > 0 {
        let name = &open[open.len() - 1];
        assert(names(open@).last() == name@);
        let mut why = "<".to_owned();
        why.append(string_of(name).as_str());
        why.append("> is never closed");
        return Some(refuse(why.as_str()));
    }
    None
}

// ---- Putting the pieces back together ----

/// How many pieces the line that starts with `ps[0]` takes: an element that holds nothing or
/// only text goes on one line with the tag that closes it.
pub open spec fn on_line(ps: Seq<Part>) -> nat {
    match ps[0] {
        Part::Open { name, text } => if ps.len() > 1 && ps[1] is Close && ps[1]->Close_name
            == name {
            2
        } else if ps.len() > 2 && ps[1] is Text && ps[2] is Close && ps[2]->Close_name == name {
            3
        } else {
            1
        },
        _ => 1,
    }
}

/// What the line that starts with `ps[0]` holds.
pub open spec fn line_text(ps: Seq<Part>) -> Seq<char> {
    match ps[0] {
        Part::Open { name, text } => if on_line(ps) == 2 {
            text + ps[1]->Close_text
        } else if on_line(ps) == 3 {
            text + text::trim(ps[1]->Text_0) + ps[2]->Close_text
        } else {
            text
        },
        Part::Close { name, text } => text,
        Part::Whole(text) => text,
        Part::Text(text) => text::trim(text),
    }
}

/// How deep the line that starts with `ps[0]` is indented.
pub open spec fn line_depth(ps: Seq<Part>, depth: nat) -> nat {
    if ps[0] is Close && depth > 0 {
        (depth - 1) as nat
    } else if ps[0] is Close {
        0
    } else {
        depth
    }
}

/// How deep what follows the line that starts with `ps[0]` lies.
pub open spec fn next_depth(ps: Seq<Part>, depth: nat) -> nat {
    if ps[0] is Open && on_line(ps) == 1 {
        depth + 1
    } else {
        line_depth(ps, depth)
    }
}

/// The pieces one line after another, indented by the elements they lie in.
pub open spec fn lines(
    ps: Seq<Part>,
    depth: nat,
    indent: Seq<char>,
    newline: Seq<char>,
) -> Seq<char>
    decreases ps.len(),
{
    if ps.len() == 0 {
        Seq::empty()
    } else {
        text::repeat(indent, line_depth(ps, depth)) + line_text(ps) + newline + lines(
            ps.skip(on_line(ps) as int),
            next_depth(ps, depth),
            indent,
            newline,
        )
    }
}

/// The document the pieces make; one without any is an empty line.
pub open spec fn laid(ps: Seq<Part>, indent: Seq<char>, newline: Seq<char>) -> Seq<char> {
    if ps.len() == 0 {
        newline
    } else {
        lines(ps, 0, indent, newline)
    }
}

/// A document laid out anew, or why it is refused.
pub open spec fn formatted(s: Seq<char>, indent: Seq<char>, newline: Seq<char>) -> Result<
    Seq<char>,
    Seq<char>,
> {
    match cut(s) {
        Err(why) => Err(why),
        Ok(ps) => match unbalanced(ps, Seq::empty()) {
            Some(why) => Err(why),
            None => Ok(laid(ps, indent, newline)),
        },
    }
}

/// What the line that starts with the piece at `at` holds, and how many pieces it takes.
fn read_line(pieces: &Vec<Piece>, at: usize) -> (line: (Vec<char>, usize))
    requires
        at < pieces.len(),
    ensures
        line.0@ == line_text(parts(pieces@).skip(at as int)),
        line.1 == on_line(parts(pieces@).skip(at as int)),
        at + line.1 <= pieces.len(),
{
    let ghost ps = parts(pieces@).skip(at as int);
    assert(ps[0] == pieces@[at as int]@);
    let mut content: Vec<char> = Vec::new();
    match &pieces[at] {
        Piece::Open { name, text } => {
            push_all(&mut content, text);
            assert(content@ =~= text@);
            if pieces.len() - at > 1 {
                assert(ps[1] == pieces@[at + 1]@);
                match &pieces[at + 1] {
                    Piece::Close { name: closing, text: close } => {
                        if same_chars(closing, name) {
                            push_all(&mut content, close);
                            return (content, 2);
                        }
                    },
                    Piece::Text(held) => {
                        if pieces.len() - at > 2 {
                            assert(ps[2] == pieces@[at + 2]@);
                            match &pieces[at + 2] {
                                Piece::Close { name: closing, text: close } => {
                                    if same_chars(closing, name) {
                                        push_all(&mut content, &trimmed(held));
                                        push_all(&mut content, close);
                                        return (content, 3);
                                    }
                                },
                                _ => {},
                            }
                        }
                    },
                    _ => {},
                }
            }
        },
        Piece::Close { name, text } => {
            push_all(&mut content, text);
            assert(content@ =~= text@);
        },
        Piece::Whole(text) => {
            push_all(&mut content, text);
            assert(content@ =~= text@);
        },
        Piece::Text(text) => {
            push_all(&mut content, &trimmed(text));
            assert(content@ =~= text::trim(text@));
        },
    }
    (content, 1)
}

/// Puts the line that starts with the piece at `at` into `out`, and says which piece follows
/// it and how deep that lies.
fn push_line(
    out: &mut Vec<char>,
    pieces: &Vec<Piece>,
    at: usize,
    depth: usize,
    indent: &Vec<char>,
    newline: &Vec<char>,
) -> (next: (usize, usize))
    requires
        depth <= at < pieces.len(),
    ensures
        at < next.0 <= pieces.len(),
        next.1 <= next.0,
        final(out)@ + lines(parts(pieces@).skip(next.0 as int), next.1 as nat, indent@, newline@)
            == old(out)@ + lines(parts(pieces@).skip(at as int), depth as nat, indent@, newline@),
{
    let ghost ps = parts(pieces@).skip(at as int);
    assert(ps[0] == pieces@[at as int]@);
    let (content, taken) = read_line(pieces, at);
    let level = match &pieces[at] {
        Piece::Close { name, text } => if depth > 0 {
            depth - 1
        } else {
            0
        },
        _ => depth,
    };
    let inner = match &pieces[at] {
        Piece::Open { name, text } => if taken == 1 {
            depth + 1
        } else {
            depth
        },
        _ => level,
    };
    let ghost before = out@;
    for i in 0..level
        invariant
            out@ == before + text::repeat(indent@, i as nat),
    {
        push_all(out, indent);
        assert(out@ =~= before + text::repeat(indent@, (i + 1) as nat));
    }
    push_all(out, &content);
    push_all(out, newline);
    proof {
        assert(ps.skip(taken as int) =~= parts(pieces@).skip(at + taken));
        let rest = lines(ps.skip(taken as int), inner as nat, indent@, newline@);
        assert(out@ + rest =~= before + (text::repeat(indent@, level as nat) + content@ + newline@
            + rest));
    }
    (at + taken, inner)
}

/// Formats an XML document; one whose tags do not end, do not balance or have no name is
/// refused.
pub fn xml(text: &str, indent: &str, newline: &str) -> (out: Result<String, String>)
    ensures
        match out {
            Ok(out) => formatted(text@, indent@, newline@) == Ok::<Seq<char>, Seq<char>>(out@),
            Err(why) => formatted(text@, indent@, newline@) == Err::<Seq<char>, Seq<char>>(why@),
        },
{
    let pieces = match xml_pieces(text) {
        Ok(pieces) => pieces,
        Err(reason) => return Err(reason),
    };
    if let Some(fault) = check_balance(&pieces) {
        return Err(fault);
    }
    let indent = chars_of(indent);
    let newline = chars_of(newline);
    let ghost ps = parts(pieces@);
    let ghost whole = lines(ps, 0, indent@, newline@);
    let mut out: Vec<char> = Vec::new();
    let mut depth: usize = 0;
    let mut i: usize = 0;
    assert(ps.skip(0) == ps);
    assert(out@ + whole =~= whole);
    while i < pieces.len()
        invariant
            depth <= i <= pieces.len(),
            ps == parts(pieces@),
            out@ + lines(ps.skip(i as int), depth as nat, indent@, newline@) == whole,
        decreases pieces.len() - i,
    {
        let next = push_line(&mut out, &pieces, i, depth, &indent, &newline);
        i = next.0;
        depth = next.1;
    }
    assert(ps.skip(i as int).len() == 0);
    assert(out@ =~= whole);
    if pieces.len() == 0 {
        push_all(&mut out, &newline);
        assert(out@ =~= newline@);
    }
    Ok(string_of(&out))
}

// ---- What the layout leaves alone ----

/// Whether two pieces say the same: they are the same tag, comment or declaration to the
/// character, or the same text but for the white space around it.
pub open spec fn alike(p: Part, q: Part) -> bool {
    match (p, q) {
        (Part::Text(t), Part::Text(u)) => text::trim(t) == text::trim(u),
        _ => p == q,
    }
}

/// Whether two documents say the same, piece by piece.
pub open spec fn all_alike(ps: Seq<Part>, qs: Seq<Part>) -> bool {
    &&& ps.len() == qs.len()
    &&& forall|i: int| 0 <= i < ps.len() ==> alike(#[trigger] ps[i], qs[i])
}

/// The text of a piece that is not text.
spec fn source(p: Part) -> Seq<char> {
    match p {
        Part::Open { name, text } => text,
        Part::Close { name, text } => text,
        Part::Whole(text) => text,
        Part::Text(text) => text,
    }
}

/// Whether no tag starts in a text.
spec fn tagless(s: Seq<char>) -> bool {
    forall|i: int| 0 <= i < s.len() ==> #[trigger] s[i] != '<'
}

/// Whether a piece is one that a document is cut into: a tag that reads as itself, or text
/// with something in it.
spec fn is_cut(p: Part) -> bool {
    if p is Text {
        tagless(source(p)) && text::trim(source(p)).len() > 0
    } else {
        let t = source(p);
        t.len() > 0 && t[0] == '<' && markup(t) == Ok::<(Part, int), Seq<char>>(
            (p, t.len() as int),
        )
    }
}

/// Whether the pieces are those of a document: each is one, and no two texts meet.
spec fn sound(ps: Seq<Part>) -> bool {
    &&& forall|i: int| 0 <= i < ps.len() ==> is_cut(#[trigger] ps[i])
    &&& forall|i: int|
        0 < i < ps.len() ==> !((#[trigger] ps[i]) is Text && ps[i - 1] is Text)
}

/// Text as the piece it is read as.
spec fn as_text(s: Seq<char>) -> Seq<Part> {
    if text::trim(s).len() == 0 {
        Seq::empty()
    } else {
        seq![Part::Text(s)]
    }
}

proof fn lemma_tag_end_prefix(
    s: Seq<char>,
    at: int,
    quote: Option<char>,
    brackets: nat,
    end: int,
    more: Seq<char>,
)
    requires
        0 <= at,
        tag_end(s, at, quote, brackets) == Some(end),
    ensures
        at < end <= s.len(),
        tag_end(s.take(end) + more, at, quote, brackets) == Some(end),
    decreases s.len() - at,
{
    lemma_tag_end(s, at, quote, brackets);
    let t = s.take(end) + more;
    assert(t[at] == s[at]);
    let c = s[at];
    match quote {
        Some(open) => lemma_tag_end_prefix(
            s,
            at + 1,
            if c == open {
                None
            } else {
                quote
            },
            brackets,
            end,
            more,
        ),
        None => if c == '"' || c == '\'' {
            lemma_tag_end_prefix(s, at + 1, Some(c), brackets, end, more);
        } else if c == '[' {
            lemma_tag_end_prefix(s, at + 1, None, brackets + 1, end, more);
        } else if c == ']' {
            lemma_tag_end_prefix(
                s,
                at + 1,
                None,
                if brackets == 0 {
                    0
                } else {
                    (brackets - 1) as nat
                },
                end,
                more,
            );
        } else if c == '>' && brackets == 0 {
        } else {
            lemma_tag_end_prefix(s, at + 1, None, brackets, end, more);
            assert(t[1] == s[1]);
        },
    }
}

/// What starts a text starts any text with the same beginning.
proof fn lemma_starts_prefix(s: Seq<char>, n: int, more: Seq<char>, what: Seq<char>)
    requires
        0 <= n <= s.len(),
    ensures
        what.len() <= n ==> (text::starts_with(s.take(n) + more, what) <==> text::starts_with(s, what)),
{
    if what.len() <= n {
        assert((s.take(n) + more).subrange(0, what.len() as int) =~= s.subrange(
            0,
            what.len() as int,
        ));
    }
}

/// A text that reaches a character its beginning does not have does not start with it.
proof fn lemma_starts_not(s: Seq<char>, n: int, more: Seq<char>, what: Seq<char>)
    requires
        0 < n <= s.len(),
        s[n - 1] == '>',
        !text::starts_with(s, what),
        forall|i: int| 0 <= i < what.len() ==> what[i] != '>',
    ensures
        !text::starts_with(s.take(n) + more, what),
{
    let t = s.take(n) + more;
    if text::starts_with(t, what) {
        if what.len() <= n {
            lemma_starts_prefix(s, n, more, what);
        } else {
            assert(t.subrange(0, what.len() as int)[n - 1] == t[n - 1]);
            assert(t[n - 1] == s[n - 1]);
            assert(what[n - 1] != '>');
        }
    }
}

proof fn lemma_find_prefix(s: Seq<char>, what: Seq<char>, more: Seq<char>)
    requires
        text::find(s, what, 0) is Some,
    ensures
        0 <= text::find(s, what, 0)->0,
        text::find(s, what, 0)->0 + what.len() <= s.len(),
        text::find(s.take(text::find(s, what, 0)->0 + what.len()) + more, what, 0) == text::find(s, what, 0),
{
    text::lemma_find(s, what, 0);
    let at = text::find(s, what, 0)->0;
    let n = at + what.len();
    let t = s.take(n) + more;
    text::lemma_find(t, what, 0);
    assert(t.subrange(at, n) =~= s.subrange(at, n));
    assert(text::stands_at(t, what, at));
    let found = text::find(t, what, 0)->0;
    if found < at {
        assert(t.subrange(found, found + what.len()) =~= s.subrange(found, found + what.len()));
        assert(text::stands_at(s, what, found));
    }
}

/// A tag reads the same whatever follows it.
proof fn lemma_markup_prefix(s: Seq<char>, part: Part, n: int, more: Seq<char>)
    requires
        s.len() > 0,
        s[0] == '<',
        markup(s) == Ok::<(Part, int), Seq<char>>((part, n)),
    ensures
        2 <= n <= s.len(),
        markup(s.take(n) + more) == Ok::<(Part, int), Seq<char>>((part, n)),
        source(part) == s.take(n),
        !(part is Text),
{
    reveal(markup);
    lemma_markup_length(s);
    let t = s.take(n) + more;
    let comment = seq!['<', '!', '-', '-'];
    let cdata = seq!['<', '!', '[', 'C', 'D', 'A', 'T', 'A', '['];
    let declaration = seq!['<', '?'];
    assert(t.take(n) =~= s.take(n));
    if text::starts_with(s, comment) {
        let end = seq!['-', '-', '>'];
        text::lemma_find(s, end, 0);
        lemma_find_prefix(s, end, more);
        let at = text::find(s, end, 0)->0;
        assert(s.subrange(0, 4)[0] == '<');
        assert(s.subrange(0, 4)[1] == '!');
        assert(s.subrange(at, at + 3)[0] == '-');
        lemma_starts_prefix(s, n, more, comment);
    } else if text::starts_with(s, cdata) {
        let end = seq![']', ']', '>'];
        lemma_starts_not(s, n, more, comment);
        text::lemma_find(s, end, 0);
        lemma_find_prefix(s, end, more);
        let at = text::find(s, end, 0)->0;
        assert(s.subrange(at, at + 3)[0] == ']');
        assert(s.subrange(at, at + 3)[1] == ']');
        assert(s.subrange(at, at + 3)[2] == '>');
        assert forall|i: int| 0 <= i < 9 implies s[i] == #[trigger] cdata[i] by {
            assert(s.subrange(0, 9)[i] == s[i]);
        }
        assert(cdata[0] == '<' && cdata[1] == '!' && cdata[2] == '[' && cdata[3] == 'C' && cdata[4]
            == 'D' && cdata[5] == 'A' && cdata[6] == 'T' && cdata[7] == 'A' && cdata[8] == '[');
        assert(at >= 9);
        lemma_starts_prefix(s, n, more, cdata);
    } else if text::starts_with(s, declaration) {
        let end = seq!['?', '>'];
        lemma_starts_not(s, n, more, comment);
        lemma_starts_not(s, n, more, cdata);
        text::lemma_find(s, end, 0);
        lemma_find_prefix(s, end, more);
        lemma_starts_prefix(s, n, more, declaration);
    } else {
        lemma_starts_not(s, n, more, comment);
        lemma_starts_not(s, n, more, cdata);
        lemma_starts_not(s, n, more, declaration);
        lemma_tag_end_prefix(s, 1, None, 0, n, more);
    }
}

/// Text and then a tag, read: the text unless it is blank, the tag, and what follows.
proof fn lemma_cut_step(lead: Seq<char>, p: Part, rest: Seq<char>)
    requires
        tagless(lead),
        !(p is Text),
        is_cut(p),
    ensures
        cut(lead + source(p) + rest) == match cut(rest) {
            Ok(more) => Ok::<Seq<Part>, Seq<char>>(as_text(lead) + seq![p] + more),
            Err(why) => Err(why),
        },
{
    let t = source(p);
    let all = lead + t + rest;
    let n = lead.len() as int;
    assert(all[n] == '<');
    assert forall|i: int| 0 <= i < n implies all[i] != '<' by {
        assert(all[i] == lead[i]);
    }
    text::lemma_index_of_is(all, '<', n);
    assert(all.take(n) =~= lead);
    assert(all.skip(n) =~= t + rest);
    assert(t.take(t.len() as int) =~= t);
    lemma_markup_prefix(t, p, t.len() as int, rest);
    assert(all.skip(n + t.len()) =~= rest);
}

/// A document without a tag is the text it is.
proof fn lemma_cut_tagless(lead: Seq<char>)
    requires
        tagless(lead),
    ensures
        cut(lead) == Ok::<Seq<Part>, Seq<char>>(as_text(lead)),
{
    text::lemma_index_of_is(lead, '<', lead.len() as int);
    assert(lead.take(lead.len() as int) =~= lead);
}

/// What a document is cut into is the pieces of a document.
proof fn lemma_cut_sound(s: Seq<char>)
    requires
        cut(s) is Ok,
    ensures
        sound(cut(s)->Ok_0),
    decreases s.len(),
{
    text::lemma_index_of(s, '<');
    let start = text::index_of(s, '<');
    let lead = s.take(start);
    assert(tagless(lead)) by {
        assert forall|i: int| 0 <= i < lead.len() implies #[trigger] lead[i] != '<' by {
            assert(lead[i] == s[i]);
        }
    }
    if start < s.len() {
        let tail = s.skip(start);
        let (p, n) = markup(tail)->Ok_0;
        lemma_markup_length(tail);
        lemma_markup_prefix(tail, p, n, Seq::empty());
        assert(tail.take(n) + Seq::<char>::empty() =~= tail.take(n));
        assert(tail.take(n)[0] == '<');
        assert(is_cut(p));
        lemma_cut_sound(s.skip(start + n));
    }
}

proof fn lemma_tagless_space(s: Seq<char>)
    requires
        text::all_space(s),
    ensures
        tagless(s),
{
    assert forall|i: int| 0 <= i < s.len() implies #[trigger] s[i] != '<' by {
        assert(text::is_space(s[i]));
    }
}

proof fn lemma_sound_skip(ps: Seq<Part>, n: int)
    requires
        sound(ps),
        0 <= n <= ps.len(),
    ensures
        sound(ps.skip(n)),
{
    let qs = ps.skip(n);
    assert forall|i: int| 0 <= i < qs.len() implies is_cut(#[trigger] qs[i]) by {
        assert(qs[i] == ps[i + n]);
    }
    assert forall|i: int| 0 < i < qs.len() implies !((#[trigger] qs[i]) is Text && qs[i
        - 1] is Text) by {
        assert(qs[i] == ps[i + n]);
        assert(qs[i - 1] == ps[i - 1 + n]);
    }
}

proof fn lemma_tagless_concat(a: Seq<char>, b: Seq<char>)
    requires
        tagless(a),
        tagless(b),
    ensures
        tagless(a + b),
{
    assert forall|i: int| 0 <= i < a.len() + b.len() implies #[trigger] (a + b)[i] != '<' by {
        if i < a.len() {
            assert((a + b)[i] == a[i]);
        } else {
            assert((a + b)[i] == b[i - a.len()]);
        }
    }
}

/// What is left of a text has no tag in it either.
proof fn lemma_tagless_trim(s: Seq<char>)
    requires
        tagless(s),
    ensures
        tagless(text::trim(s)),
{
    let from = text::lemma_trim_within(s);
    assert forall|i: int| 0 <= i < text::trim(s).len() implies #[trigger] text::trim(s)[i] != '<' by {
        assert(text::trim(s)[i] == s[from + i]);
    }
}

/// The pieces a line is made of, as they read back after the text `ahead`.
spec fn line_parts(ahead: Seq<char>, ps: Seq<Part>) -> Seq<Part> {
    if on_line(ps) == 2 {
        as_text(ahead) + seq![ps[0], ps[1]]
    } else if on_line(ps) == 3 {
        as_text(ahead) + seq![ps[0], Part::Text(text::trim(source(ps[1]))), ps[2]]
    } else {
        as_text(ahead) + seq![ps[0]]
    }
}

/// A line that starts with a tag, read: its pieces, and those of what follows it.
proof fn lemma_line_reads(ahead: Seq<char>, ps: Seq<Part>, rest: Seq<char>, after: Seq<Part>)
    requires
        tagless(ahead),
        sound(ps),
        ps.len() > 0,
        !(ps[0] is Text),
        cut(rest) == Ok::<Seq<Part>, Seq<char>>(after),
    ensures
        cut(ahead + line_text(ps) + rest) == Ok::<Seq<Part>, Seq<char>>(
            line_parts(ahead, ps) + after,
        ),
{
    let n = on_line(ps);
    let first = source(ps[0]);
    assert(is_cut(ps[0]));
    if n == 2 {
        let close = source(ps[1]);
        let none = Seq::<char>::empty();
        assert(is_cut(ps[1]));
        text::lemma_trim_blank(none);
        lemma_cut_step(none, ps[1], rest);
        lemma_cut_step(ahead, ps[0], none + close + rest);
        assert(ahead + line_text(ps) + rest =~= ahead + first + (none + close + rest));
        assert(as_text(ahead) + seq![ps[0]] + (as_text(none) + seq![ps[1]] + after)
            =~= line_parts(ahead, ps) + after);
    } else if n == 3 {
        let held = source(ps[1]);
        let close = source(ps[2]);
        assert(is_cut(ps[1]));
        assert(is_cut(ps[2]));
        lemma_tagless_trim(held);
        text::lemma_trim_twice(held);
        lemma_cut_step(text::trim(held), ps[2], rest);
        lemma_cut_step(ahead, ps[0], text::trim(held) + close + rest);
        assert(ahead + line_text(ps) + rest =~= ahead + first + (text::trim(held) + close + rest));
        assert(as_text(ahead) + seq![ps[0]] + (as_text(text::trim(held)) + seq![ps[2]] + after)
            =~= line_parts(ahead, ps) + after);
    } else {
        lemma_cut_step(ahead, ps[0], rest);
        assert(line_text(ps) == first);
        assert(as_text(ahead) + seq![ps[0]] + after =~= line_parts(ahead, ps) + after);
    }
}

/// The pieces of a line read back like the pieces it was made of.
proof fn lemma_line_alike(lead: Seq<char>, ahead: Seq<char>, ps: Seq<Part>, after: Seq<Part>)
    requires
        ps.len() > 0,
        !(ps[0] is Text),
        text::trim(lead) == text::trim(ahead),
        all_alike(ps.skip(on_line(ps) as int), after),
    ensures
        all_alike(as_text(lead) + ps, line_parts(ahead, ps) + after),
{
    let n = on_line(ps) as int;
    let k = as_text(lead).len() as int;
    let expected = as_text(lead) + ps;
    let qs = line_parts(ahead, ps) + after;
    assert(line_parts(ahead, ps).len() == k + n);
    if n == 3 {
        text::lemma_trim_twice(source(ps[1]));
    }
    assert forall|i: int| 0 <= i < expected.len() implies alike(#[trigger] expected[i], qs[i]) by {
        if i < k {
        } else if i < k + n {
            assert(expected[i] == ps[i - k]);
            assert(qs[i] == line_parts(ahead, ps)[i]);
        } else {
            assert(expected[i] == ps.skip(n)[i - k - n]);
            assert(alike(ps.skip(n)[i - k - n], after[i - k - n]));
            assert(qs[i] == after[i - k - n]);
        }
    }
}

/// Lines read back as the pieces they were made of, after whatever text stands before them.
proof fn lemma_lines_read_back(
    lead: Seq<char>,
    ps: Seq<Part>,
    depth: nat,
    indent: Seq<char>,
    newline: Seq<char>,
) -> (qs: Seq<Part>)
    requires
        tagless(lead),
        sound(ps),
        text::trim(lead).len() > 0 && ps.len() > 0 ==> !(ps[0] is Text),
        text::all_space(indent),
        text::all_space(newline),
    ensures
        cut(lead + lines(ps, depth, indent, newline)) == Ok::<Seq<Part>, Seq<char>>(qs),
        all_alike(as_text(lead) + ps, qs),
    decreases ps.len(),
{
    if ps.len() == 0 {
        assert(lead + lines(ps, depth, indent, newline) =~= lead);
        lemma_cut_tagless(lead);
        as_text(lead)
    } else {
        let rest = ps.skip(on_line(ps) as int);
        let rep = text::repeat(indent, line_depth(ps, depth));
        let deeper = next_depth(ps, depth);
        let tail = lines(rest, deeper, indent, newline);
        let whole = lead + lines(ps, depth, indent, newline);
        let ahead = lead + rep;
        lemma_sound_skip(ps, on_line(ps) as int);
        text::lemma_repeat_space(indent, line_depth(ps, depth));
        lemma_tagless_space(rep);
        lemma_tagless_space(newline);
        lemma_tagless_concat(lead, rep);
        text::lemma_trim_blank(newline);
        text::lemma_trim_around(Seq::empty(), lead, rep);
        assert(Seq::<char>::empty() + lead + rep =~= ahead);
        if ps[0] is Text {
            let t = source(ps[0]);
            let more = ahead + text::trim(t) + newline;
            assert(is_cut(ps[0]));
            lemma_tagless_trim(t);
            lemma_tagless_concat(ahead, text::trim(t));
            lemma_tagless_concat(ahead + text::trim(t), newline);
            text::lemma_trim_blank(ahead);
            text::lemma_trim_around(ahead, text::trim(t), newline);
            text::lemma_trim_twice(t);
            if rest.len() > 0 {
                assert(rest[0] == ps[1]);
            }
            let qs = lemma_lines_read_back(more, rest, deeper, indent, newline);
            assert(whole =~= more + tail);
            assert(as_text(more) + rest =~= seq![Part::Text(more)] + rest);
            assert forall|i: int| 0 <= i < ps.len() implies alike(#[trigger] ps[i], qs[i]) by {
                assert(alike((as_text(more) + rest)[i], qs[i]));
                if i > 0 {
                    assert((as_text(more) + rest)[i] == ps[i]);
                }
            }
            assert(as_text(lead) + ps =~= ps);
            qs
        } else {
            let after = lemma_lines_read_back(newline, rest, deeper, indent, newline);
            assert(as_text(newline) + rest =~= rest);
            lemma_line_reads(ahead, ps, newline + tail, after);
            assert(whole =~= ahead + line_text(ps) + (newline + tail));
            lemma_line_alike(lead, ahead, ps, after);
            line_parts(ahead, ps) + after
        }
    }
}

/// Documents that say the same balance the same.
proof fn lemma_alike_balance(ps: Seq<Part>, qs: Seq<Part>, open: Seq<Seq<char>>)
    requires
        all_alike(ps, qs),
    ensures
        unbalanced(ps, open) == unbalanced(qs, open),
    decreases ps.len(),
{
    if ps.len() > 0 {
        assert(alike(ps[0], qs[0]));
        lemma_alike_skip(ps, qs, 1);
        match ps[0] {
            Part::Open { name, text } => {
                lemma_alike_balance(ps.skip(1), qs.skip(1), open.push(name));
            },
            Part::Close { name, text } => {
                if open.len() > 0 {
                    lemma_alike_balance(ps.skip(1), qs.skip(1), open.drop_last());
                }
            },
            _ => {
                lemma_alike_balance(ps.skip(1), qs.skip(1), open);
            },
        }
    }
}

proof fn lemma_alike_skip(ps: Seq<Part>, qs: Seq<Part>, n: int)
    requires
        all_alike(ps, qs),
        0 <= n <= ps.len(),
    ensures
        all_alike(ps.skip(n), qs.skip(n)),
{
    assert forall|i: int| 0 <= i < ps.len() - n implies alike(
        #[trigger] ps.skip(n)[i],
        qs.skip(n)[i],
    ) by {
        assert(alike(ps[i + n], qs[i + n]));
    }
}

/// Documents that say the same are laid out the same.
proof fn lemma_alike_lines(
    ps: Seq<Part>,
    qs: Seq<Part>,
    depth: nat,
    indent: Seq<char>,
    newline: Seq<char>,
)
    requires
        all_alike(ps, qs),
    ensures
        lines(ps, depth, indent, newline) == lines(qs, depth, indent, newline),
    decreases ps.len(),
{
    if ps.len() > 0 {
        assert(alike(ps[0], qs[0]));
        if ps.len() > 1 {
            assert(alike(ps[1], qs[1]));
        }
        if ps.len() > 2 {
            assert(alike(ps[2], qs[2]));
        }
        let n = on_line(ps) as int;
        assert(n == on_line(qs));
        lemma_alike_skip(ps, qs, n);
        lemma_alike_lines(ps.skip(n), qs.skip(n), next_depth(ps, depth), indent, newline);
    }
}

/// Only the white space between the pieces changes: what a document is laid out as is cut
/// into the same pieces in the same order, tags, comments and declarations to the character,
/// text but for the white space around it.
pub proof fn law_layout_keeps_the_pieces(s: Seq<char>, indent: Seq<char>, newline: Seq<char>)
    requires
        cut(s) is Ok,
        text::all_space(indent),
        text::all_space(newline),
    ensures
        cut(laid(cut(s)->Ok_0, indent, newline)) is Ok,
        all_alike(cut(s)->Ok_0, cut(laid(cut(s)->Ok_0, indent, newline))->Ok_0),
{
    let ps = cut(s)->Ok_0;
    let out = laid(ps, indent, newline);
    lemma_cut_sound(s);
    text::lemma_trim_blank(Seq::empty());
    if ps.len() == 0 {
        lemma_tagless_space(newline);
        lemma_cut_tagless(newline);
        text::lemma_trim_blank(newline);
    } else {
        let qs = lemma_lines_read_back(Seq::empty(), ps, 0, indent, newline);
        assert(Seq::<char>::empty() + lines(ps, 0, indent, newline) =~= out);
        assert(as_text(Seq::<char>::empty()) + ps =~= ps);
    }
}

/// A document laid out once is laid out: formatting it again gives it back unchanged.
pub proof fn law_format_settles(s: Seq<char>, indent: Seq<char>, newline: Seq<char>)
    requires
        formatted(s, indent, newline) is Ok,
        text::all_space(indent),
        text::all_space(newline),
    ensures
        formatted(formatted(s, indent, newline)->Ok_0, indent, newline) == formatted(
            s,
            indent,
            newline,
        ),
{
    law_layout_keeps_the_pieces(s, indent, newline);
    let ps = cut(s)->Ok_0;
    let qs = cut(laid(ps, indent, newline))->Ok_0;
    lemma_alike_balance(ps, qs, Seq::empty());
    lemma_alike_lines(ps, qs, 0, indent, newline);
}

// ---- What each piece of a document is read as ----

/// What a document that starts with a piece is cut into: the piece, and what the rest is cut
/// into; why not, when the rest cannot be.
pub open spec fn cut_first(piece: Part, rest: Seq<char>) -> Result<Seq<Part>, Seq<char>> {
    match cut(rest) {
        Ok(more) => Ok(seq![piece] + more),
        Err(why) => Err(why),
    }
}

/// Whether a character has no meaning of its own in a tag.
pub open spec fn is_ordinary(c: char) -> bool {
    c != '<' && c != '>' && c != '"' && c != '\'' && c != '[' && c != ']'
}

/// Whether every character has no meaning of its own in a tag.
pub open spec fn all_ordinary(s: Seq<char>) -> bool {
    forall|i: int| 0 <= i < s.len() ==> is_ordinary(#[trigger] s[i])
}

/// Whether none of the characters is white space.
pub open spec fn spaceless(s: Seq<char>) -> bool {
    forall|i: int| 0 <= i < s.len() ==> !text::is_space(#[trigger] s[i])
}

proof fn lemma_reads_first(p: Part, t: Seq<char>, rest: Seq<char>)
    requires
        !(p is Text),
        source(p) == t,
        t.len() > 0,
        t[0] == '<',
        markup(t) == Ok::<(Part, int), Seq<char>>((p, t.len() as int)),
    ensures
        cut(t + rest) == cut_first(p, rest),
{
    let none = Seq::<char>::empty();
    lemma_cut_step(none, p, rest);
    text::lemma_trim_blank(none);
    assert(none + t + rest =~= t + rest);
    if let Ok(more) = cut(rest) {
        assert(as_text(none) + seq![p] + more =~= seq![p] + more);
    }
}

/// What is read up to an end that does not stand in it before is read whole.
proof fn lemma_up_to_is(x: Seq<char>, end: Seq<char>, what: Seq<char>)
    requires
        forall|i: int| 0 <= i < x.len() ==> !text::stands_at(x + end, end, i),
    ensures
        up_to(x + end, end, what) == Ok::<(Part, int), Seq<char>>(
            (Part::Whole(x + end), (x + end).len() as int),
        ),
{
    let t = x + end;
    text::lemma_find(t, end, 0);
    assert(t.subrange(x.len() as int, t.len() as int) =~= end);
    assert(text::stands_at(t, end, x.len() as int));
    let at = text::find(t, end, 0)->0;
    assert(at == x.len());
    assert(t.take(t.len() as int) =~= t);
}

proof fn lemma_three(x: Seq<char>, a: char, b: char, c: char)
    requires
        a == b,
        a != c,
        forall|i: int| 0 <= i && i + 2 < x.len() ==> !(#[trigger] x[i] == a && x[i + 1] == b && x[i + 2] == c),
    ensures
        forall|i: int| 0 <= i < x.len() ==> !text::stands_at(x + seq![a, b, c], seq![a, b, c], i),
{
    let end = seq![a, b, c];
    let t = x + end;
    assert forall|i: int| 0 <= i < x.len() implies !text::stands_at(t, end, i) by {
        if text::stands_at(t, end, i) {
            let s = t.subrange(i, i + 3);
            assert(s[0] == t[i] && s[1] == t[i + 1] && s[2] == t[i + 2]);
            assert(end[0] == a && end[1] == b && end[2] == c);
            if i + 2 < x.len() {
                assert(t[i] == x[i] && t[i + 1] == x[i + 1] && t[i + 2] == x[i + 2]);
            } else if i + 2 == x.len() {
                assert(t[i + 2] == end[0]);
            } else {
                assert(t[i + 2] == end[1]);
            }
        }
    }
}

/// A comment is one piece up to the words that end it, whatever tags stand in it.
pub proof fn law_a_comment_is_one_piece(c: Seq<char>, rest: Seq<char>)
    requires
        ({
            let x = seq!['<', '!', '-', '-'] + c;
            forall|i: int|
                0 <= i && i + 2 < x.len() ==> !(#[trigger] x[i] == '-' && x[i + 1] == '-' && x[i
                    + 2] == '>')
        }),
    ensures
        ({
            let comment = seq!['<', '!', '-', '-'] + c + seq!['-', '-', '>'];
            cut(comment + rest) == cut_first(Part::Whole(comment), rest)
        }),
{
    reveal(markup);
    let open = seq!['<', '!', '-', '-'];
    let end = seq!['-', '-', '>'];
    let x = open + c;
    let t = x + end;
    lemma_three(x, '-', '-', '>');
    lemma_up_to_is(x, end, "comment"@);
    assert(t.subrange(0, 4) =~= open);
    lemma_reads_first(Part::Whole(t), t, rest);
}

/// A CDATA section is one piece up to the brackets that end it.
pub proof fn law_a_cdata_section_is_one_piece(c: Seq<char>, rest: Seq<char>)
    requires
        forall|i: int|
            0 <= i && i + 2 < c.len() ==> !(#[trigger] c[i] == ']' && c[i + 1] == ']' && c[i + 2]
                == '>'),
    ensures
        ({
            let section = seq!['<', '!', '[', 'C', 'D', 'A', 'T', 'A', '['] + c + seq![
                ']',
                ']',
                '>',
            ];
            cut(section + rest) == cut_first(Part::Whole(section), rest)
        }),
{
    reveal(markup);
    let open = seq!['<', '!', '[', 'C', 'D', 'A', 'T', 'A', '['];
    let end = seq![']', ']', '>'];
    let x = open + c;
    let t = x + end;
    assert forall|i: int| 0 <= i && i + 2 < x.len() implies !(#[trigger] x[i] == ']' && x[i + 1]
        == ']' && x[i + 2] == '>') by {
        if i >= 9 {
            assert(x[i] == c[i - 9] && x[i + 1] == c[i - 8] && x[i + 2] == c[i - 7]);
        } else {
            assert(x[i] == open[i]);
        }
    }
    lemma_three(x, ']', ']', '>');
    lemma_up_to_is(x, end, "CDATA section"@);
    assert(t.subrange(0, 9) =~= open);
    assert(t.subrange(0, 4)[2] == '[');
    assert(!text::starts_with(t, seq!['<', '!', '-', '-'])) by {
        assert(seq!['<', '!', '-', '-'][2] == '-');
    }
    lemma_reads_first(Part::Whole(t), t, rest);
}

/// A declaration is one piece up to the `?>` that ends it.
pub proof fn law_a_declaration_is_one_piece(c: Seq<char>, rest: Seq<char>)
    requires
        ({
            let x = seq!['<', '?'] + c;
            forall|i: int| 0 <= i && i + 1 < x.len() ==> !(#[trigger] x[i] == '?' && x[i + 1] == '>')
        }),
    ensures
        ({
            let declaration = seq!['<', '?'] + c + seq!['?', '>'];
            cut(declaration + rest) == cut_first(Part::Whole(declaration), rest)
        }),
{
    reveal(markup);
    let open = seq!['<', '?'];
    let end = seq!['?', '>'];
    let x = open + c;
    let t = x + end;
    assert forall|i: int| 0 <= i < x.len() implies !text::stands_at(t, end, i) by {
        if text::stands_at(t, end, i) {
            let s = t.subrange(i, i + 2);
            assert(s[0] == t[i] && s[1] == t[i + 1]);
            assert(end[0] == '?' && end[1] == '>');
            if i + 1 < x.len() {
                assert(t[i] == x[i] && t[i + 1] == x[i + 1]);
            } else {
                assert(t[i + 1] == end[0]);
            }
        }
    }
    lemma_up_to_is(x, end, "declaration"@);
    assert(t.subrange(0, 2) =~= open);
    lemma_not_special(t, '?');
    lemma_reads_first(Part::Whole(t), t, rest);
}

/// A text whose second character is neither a `!` nor a `?` starts none of what is read up to
/// its end.
proof fn lemma_not_special(t: Seq<char>, c: char)
    requires
        t.len() >= 2,
        t[1] == c,
    ensures
        c != '!' ==> !text::starts_with(t, seq!['<', '!', '-', '-']),
        c != '!' ==> !text::starts_with(t, seq!['<', '!', '[', 'C', 'D', 'A', 'T', 'A', '[']),
        c != '!' ==> !text::starts_with(t, seq!['<', '!']),
        c != '?' ==> !text::starts_with(t, seq!['<', '?']),
        c != '/' ==> !text::starts_with(t, seq!['<', '/']),
{
    let a = seq!['<', '!', '-', '-'];
    let b = seq!['<', '!', '[', 'C', 'D', 'A', 'T', 'A', '['];
    let d = seq!['<', '!'];
    let e = seq!['<', '?'];
    let f = seq!['<', '/'];
    if text::starts_with(t, a) {
        assert(t.subrange(0, a.len() as int)[1] == t[1]);
        assert(a[1] == '!');
    }
    if text::starts_with(t, b) {
        assert(t.subrange(0, b.len() as int)[1] == t[1]);
        assert(b[1] == '!');
    }
    if text::starts_with(t, d) {
        assert(t.subrange(0, 2)[1] == t[1]);
        assert(d[1] == '!');
    }
    if text::starts_with(t, e) {
        assert(t.subrange(0, 2)[1] == t[1]);
        assert(e[1] == '?');
    }
    if text::starts_with(t, f) {
        assert(t.subrange(0, 2)[1] == t[1]);
        assert(f[1] == '/');
    }
}

/// Ordinary characters are passed over.
proof fn lemma_tag_end_ordinary(s: Seq<char>, at: int, n: int)
    requires
        0 <= at <= n <= s.len(),
        forall|i: int| at <= i < n ==> is_ordinary(#[trigger] s[i]),
    ensures
        tag_end(s, at, None, 0) == tag_end(s, n, None, 0),
    decreases n - at,
{
    if at < n {
        assert(is_ordinary(s[at]));
        lemma_tag_end_ordinary(s, at + 1, n);
    }
}

/// What is quoted is passed over.
proof fn lemma_tag_end_quoted(s: Seq<char>, at: int, n: int, quote: char)
    requires
        0 <= at <= n < s.len(),
        s[n] == quote,
        forall|i: int| at <= i < n ==> #[trigger] s[i] != quote,
    ensures
        tag_end(s, at, Some(quote), 0) == tag_end(s, n + 1, None, 0),
    decreases n - at,
{
    if at < n {
        lemma_tag_end_quoted(s, at + 1, n, quote);
    }
}

/// What stands in the brackets of a declaration is passed over.
proof fn lemma_tag_end_held(s: Seq<char>, at: int, n: int)
    requires
        0 <= at <= n < s.len(),
        s[n] == ']',
        s.len() > 1 && s[1] == '!',
        forall|i: int|
            at <= i < n ==> #[trigger] s[i] != ']' && s[i] != '[' && s[i] != '"' && s[i] != '\'',
    ensures
        tag_end(s, at, None, 1) == tag_end(s, n + 1, None, 0),
    decreases n - at,
{
    if at < n {
        assert(s[at] != ']');
        lemma_tag_end_held(s, at + 1, n);
    }
}

proof fn lemma_word(w: Seq<char>, more: Seq<char>)
    requires
        spaceless(w),
        more.len() > 0 ==> text::is_space(more[0]),
    ensures
        word_length(w + more) == w.len(),
        first_word(w + more) == w,
    decreases w.len(),
{
    let s = w + more;
    if w.len() == 0 {
        assert(s =~= more);
    } else {
        assert(s[0] == w[0]);
        assert(s.skip(1) =~= w.skip(1) + more);
        assert forall|i: int| 0 <= i < w.skip(1).len() implies !text::is_space(
            #[trigger] w.skip(1)[i],
        ) by {
            assert(w.skip(1)[i] == w[i + 1]);
        }
        lemma_word(w.skip(1), more);
    }
    assert(first_word(s) =~= w);
}

/// A tag is named by what stands before its first white space, and ends at its `>`.
pub proof fn law_a_tag_opens_what_it_names(name: Seq<char>, more: Seq<char>, rest: Seq<char>)
    requires
        name.len() > 0,
        all_ordinary(name),
        all_ordinary(more),
        spaceless(name),
        name[0] != '!' && name[0] != '?' && name[0] != '/',
        more.len() > 0 ==> text::is_space(more[0]),
        (name + more).last() != '/',
    ensures
        ({
            let tag = seq!['<'] + name + more + seq!['>'];
            cut(tag + rest) == cut_first(Part::Open { name, text: tag }, rest)
        }),
{
    reveal(markup);
    let body = name + more;
    let t = seq!['<'] + name + more + seq!['>'];
    let n = t.len() as int;
    assert(t =~= seq!['<'] + body + seq!['>']);
    assert(t[1] == name[0]);
    lemma_not_special(t, name[0]);
    assert forall|i: int| 1 <= i < n - 1 implies is_ordinary(#[trigger] t[i]) by {
        if i - 1 < name.len() {
            assert(t[i] == name[i - 1]);
        } else {
            assert(t[i] == more[i - 1 - name.len()]);
        }
    }
    lemma_tag_end_ordinary(t, 1, n - 1);
    assert(t[n - 1] == '>');
    assert(t.take(n) =~= t);
    assert(t.subrange(1, n - 1) =~= body);
    assert(!text::ends_with(t, seq!['/', '>'])) by {
        if text::ends_with(t, seq!['/', '>']) {
            assert(t.subrange(n - 2, n)[0] == t[n - 2]);
            assert(seq!['/', '>'][0] == '/');
            assert(t[n - 2] == body[body.len() - 1]);
        }
    }
    lemma_word(name, more);
    lemma_reads_first(Part::Open { name, text: t }, t, rest);
}

/// A value in quotes may hold anything but its quote: the tag goes on after it.
#[verifier::spinoff_prover]
#[verifier::rlimit(60)]
pub proof fn law_a_quoted_value_may_hold_anything(
    name: Seq<char>,
    more: Seq<char>,
    quote: char,
    value: Seq<char>,
    after: Seq<char>,
    rest: Seq<char>,
)
    requires
        name.len() > 0,
        all_ordinary(name),
        all_ordinary(more),
        all_ordinary(after),
        spaceless(name),
        name[0] != '!' && name[0] != '?' && name[0] != '/',
        more.len() > 0 && text::is_space(more[0]),
        quote == '"' || quote == '\'',
        forall|i: int| 0 <= i < value.len() ==> #[trigger] value[i] != quote,
        after.len() > 0 ==> after.last() != '/',
    ensures
        ({
            let tag = seq!['<'] + name + more + seq![quote] + value + seq![quote] + after + seq!['>'];
            cut(tag + rest) == cut_first(Part::Open { name, text: tag }, rest)
        }),
{
    reveal(markup);
    let a = seq!['<'] + name + more;
    let t = a + seq![quote] + value + seq![quote] + after + seq!['>'];
    let n = t.len() as int;
    let k = a.len() as int;
    let m = k + 1 + value.len();
    assert(t[1] == name[0]);
    lemma_not_special(t, name[0]);
    assert forall|i: int| 1 <= i < k implies is_ordinary(#[trigger] t[i]) by {
        if i - 1 < name.len() {
            assert(t[i] == name[i - 1]);
        } else {
            assert(t[i] == more[i - 1 - name.len()]);
        }
    }
    lemma_tag_end_ordinary(t, 1, k);
    assert(t[k] == quote);
    assert forall|i: int| k + 1 <= i < m implies #[trigger] t[i] != quote by {
        assert(t[i] == value[i - k - 1]);
    }
    assert(t[m] == quote);
    lemma_tag_end_quoted(t, k + 1, m, quote);
    assert forall|i: int| m + 1 <= i < n - 1 implies is_ordinary(#[trigger] t[i]) by {
        assert(t[i] == after[i - m - 1]);
    }
    lemma_tag_end_ordinary(t, m + 1, n - 1);
    assert(t[n - 1] == '>');
    assert(t.take(n) =~= t);
    let tail = more + seq![quote] + value + seq![quote] + after;
    assert(t.subrange(1, n - 1) =~= name + tail);
    assert(tail[0] == more[0]);
    assert(!text::ends_with(t, seq!['/', '>'])) by {
        if text::ends_with(t, seq!['/', '>']) {
            assert(t.subrange(n - 2, n)[0] == t[n - 2]);
            assert(seq!['/', '>'][0] == '/');
            if after.len() > 0 {
                assert(t[n - 2] == after[after.len() - 1]);
            } else {
                assert(t[n - 2] == quote);
            }
        }
    }
    lemma_word(name, tail);
    lemma_reads_first(Part::Open { name, text: t }, t, rest);
}

/// A tag that ends in `/>` is whole.
pub proof fn law_a_closed_tag_is_whole(body: Seq<char>, rest: Seq<char>)
    requires
        body.len() > 0,
        all_ordinary(body),
        body[0] != '!' && body[0] != '?',
    ensures
        ({
            let tag = seq!['<'] + body + seq!['/', '>'];
            cut(tag + rest) == cut_first(Part::Whole(tag), rest)
        }),
{
    reveal(markup);
    let t = seq!['<'] + body + seq!['/', '>'];
    let n = t.len() as int;
    assert(t[1] == body[0]);
    lemma_not_special(t, body[0]);
    assert(t[n - 2] == '/' && t[n - 1] == '>');
    assert forall|i: int| 1 <= i < n - 1 implies is_ordinary(#[trigger] t[i]) by {
        if i < n - 2 {
            assert(t[i] == body[i - 1]);
        }
    }
    lemma_tag_end_ordinary(t, 1, n - 1);
    assert(t.take(n) =~= t);
    assert(t.subrange(n - 2, n) =~= seq!['/', '>']);
    lemma_reads_first(Part::Whole(t), t, rest);
}

/// A tag that starts with `</` closes what it names, white space after the name aside.
#[verifier::spinoff_prover]
#[verifier::rlimit(60)]
pub proof fn law_a_tag_closes_what_it_names(name: Seq<char>, space: Seq<char>, rest: Seq<char>)
    requires
        name.len() > 0,
        all_ordinary(name),
        spaceless(name),
        text::all_space(space),
        name.last() != '/',
    ensures
        ({
            let tag = seq!['<', '/'] + name + space + seq!['>'];
            cut(tag + rest) == cut_first(Part::Close { name, text: tag }, rest)
        }),
{
    reveal(markup);
    let body = name + space;
    let t = seq!['<', '/'] + name + space + seq!['>'];
    let n = t.len() as int;
    assert(t =~= seq!['<', '/'] + body + seq!['>']);
    assert(t[1] == '/');
    lemma_not_special(t, '/');
    assert forall|i: int| 1 <= i < n - 1 implies is_ordinary(#[trigger] t[i]) by {
        if i == 1 {
        } else if i - 2 < name.len() {
            assert(t[i] == name[i - 2]);
        } else {
            assert(t[i] == space[i - 2 - name.len()]);
            assert(text::is_space(space[i - 2 - name.len()]));
        }
    }
    lemma_tag_end_ordinary(t, 1, n - 1);
    assert(t[n - 1] == '>');
    assert(t.take(n) =~= t);
    assert(t.subrange(0, 2) =~= seq!['<', '/']);
    assert(t[n - 2] == body[body.len() - 1]);
    assert(body.last() != '/' && body.last() != '>') by {
        if space.len() > 0 {
            assert(body.last() == space[space.len() - 1]);
            assert(text::is_space(space[space.len() - 1]));
        } else {
            assert(body.last() == name[name.len() - 1]);
            assert(is_ordinary(name[name.len() - 1]));
        }
    }
    assert(!text::ends_with(t, seq!['/', '>'])) by {
        if text::ends_with(t, seq!['/', '>']) {
            assert(t.subrange(n - 2, n)[0] == t[n - 2]);
            assert(seq!['/', '>'][0] == '/');
        }
    }
    let tail = t.skip(2);
    assert(tail.last() == '>');
    assert(tail.drop_last() =~= body);
    reveal_with_fuel(without_closers, 3);
    assert(without_closers(tail) == body);
    assert(!text::is_space(name[0]) && !text::is_space(name[name.len() - 1]));
    text::law_trim_cuts_the_white_space_around(Seq::empty(), name, space);
    assert(Seq::<char>::empty() + name + space =~= body);
    lemma_reads_first(Part::Close { name, text: t }, t, rest);
}

/// A DOCTYPE may hold declarations in its brackets: it is one piece up to the `>` after them.
pub proof fn law_a_doctype_holds_its_declarations(
    before: Seq<char>,
    inner: Seq<char>,
    after: Seq<char>,
    rest: Seq<char>,
)
    requires
        before.len() > 0,
        before[0] != '-',
        all_ordinary(before),
        all_ordinary(after),
        forall|i: int|
            0 <= i < inner.len() ==> #[trigger] inner[i] != ']' && inner[i] != '[' && inner[i] != '"'
                && inner[i] != '\'',
    ensures
        ({
            let tag = seq!['<', '!'] + before + seq!['['] + inner + seq![']'] + after + seq!['>'];
            cut(tag + rest) == cut_first(Part::Whole(tag), rest)
        }),
{
    reveal(markup);
    let t = seq!['<', '!'] + before + seq!['['] + inner + seq![']'] + after + seq!['>'];
    let n = t.len() as int;
    let k = 2 + before.len() as int;
    let m = k + 1 + inner.len();
    assert(t[1] == '!' && t[2] == before[0]);
    lemma_not_special(t, '!');
    assert(!text::starts_with(t, seq!['<', '!', '-', '-'])) by {
        if text::starts_with(t, seq!['<', '!', '-', '-']) {
            assert(t.subrange(0, 4)[2] == t[2]);
            assert(seq!['<', '!', '-', '-'][2] == '-');
        }
    }
    let cdata = seq!['<', '!', '[', 'C', 'D', 'A', 'T', 'A', '['];
    assert(!text::starts_with(t, cdata)) by {
        if text::starts_with(t, cdata) {
            assert(t.subrange(0, 9)[2] == t[2]);
            assert(cdata[2] == '[');
            assert(is_ordinary(before[0]));
        }
    }
    assert forall|i: int| 1 <= i < k implies is_ordinary(#[trigger] t[i]) by {
        if i > 1 {
            assert(t[i] == before[i - 2]);
        }
    }
    lemma_tag_end_ordinary(t, 1, k);
    assert(t[k] == '[');
    assert forall|i: int| k + 1 <= i < m implies #[trigger] t[i] != ']' && t[i] != '[' && t[i] != '"'
        && t[i] != '\'' by {
        assert(t[i] == inner[i - k - 1]);
    }
    assert(t[m] == ']');
    lemma_tag_end_held(t, k + 1, m);
    assert forall|i: int| m + 1 <= i < n - 1 implies is_ordinary(#[trigger] t[i]) by {
        assert(t[i] == after[i - m - 1]);
    }
    lemma_tag_end_ordinary(t, m + 1, n - 1);
    assert(t[n - 1] == '>');
    assert(t.take(n) =~= t);
    assert(t.subrange(0, 2) =~= seq!['<', '!']);
    lemma_reads_first(Part::Whole(t), t, rest);
}

/// The text before a tag is a piece as it stands, unless it is only white space.
pub proof fn law_text_is_kept_unless_it_is_blank(t: Seq<char>, rest: Seq<char>)
    requires
        forall|i: int| 0 <= i < t.len() ==> #[trigger] t[i] != '<',
        rest.len() > 0 ==> rest[0] == '<',
    ensures
        text::all_space(t) ==> cut(t + rest) == cut(rest),
        !text::all_space(t) ==> cut(t + rest) == cut_first(Part::Text(t), rest),
{
    let s = t + rest;
    let n = t.len() as int;
    let none = Seq::<char>::empty();
    text::lemma_trim_blank(t);
    text::lemma_trim_blank(none);
    assert forall|i: int| 0 <= i < n implies s[i] != '<' by {
        assert(s[i] == t[i]);
    }
    if rest.len() > 0 {
        assert(s[n] == '<');
    }
    text::lemma_index_of_is(s, '<', n);
    text::lemma_index_of_is(rest, '<', 0);
    assert(s.take(n) =~= t);
    assert(rest.take(0) =~= none);
    if rest.len() > 0 {
        assert(s.skip(n) =~= rest.skip(0));
        lemma_markup_length(rest.skip(0));
        if let Ok((part, length)) = markup(rest.skip(0)) {
            assert(s.skip(n + length) =~= rest.skip(0 + length));
            if let Ok(more) = cut(rest.skip(0 + length)) {
                assert(leading_text(rest) + seq![part] + more =~= seq![part] + more);
                assert(leading_text(s) + seq![part] + more =~= leading_text(s) + (seq![part] + more));
                if text::all_space(t) {
                    assert(leading_text(s) + seq![part] + more =~= seq![part] + more);
                }
            }
        }
    } else {
        assert(leading_text(rest) =~= Seq::<Part>::empty());
        assert(seq![Part::Text(t)] + Seq::<Part>::empty() =~= seq![Part::Text(t)]);
    }
}

/// A comment that is never ended, and a tag that is never ended, are refused.
pub proof fn law_what_never_ends_is_refused(c: Seq<char>)
    ensures
        ({
            let x = seq!['<', '!', '-', '-'] + c;
            (forall|i: int|
                0 <= i && i + 2 < x.len() ==> !(#[trigger] x[i] == '-' && x[i + 1] == '-' && x[i
                    + 2] == '>')) ==> cut(x) == Err::<Seq<Part>, Seq<char>>(
                "Not valid XML, left as it was: "@ + ("unterminated "@ + "comment"@),
            )
        }),
        c.len() > 0 && all_ordinary(c) && c[0] != '!' && c[0] != '?' ==> cut(seq!['<'] + c) == Err::<
            Seq<Part>,
            Seq<char>,
        >("Not valid XML, left as it was: "@ + ("unterminated "@ + "tag"@)),
{
    reveal(markup);
    let open = seq!['<', '!', '-', '-'];
    let end = seq!['-', '-', '>'];
    let x = open + c;
    if forall|i: int|
        0 <= i && i + 2 < x.len() ==> !(#[trigger] x[i] == '-' && x[i + 1] == '-' && x[i + 2]
            == '>') {
        text::lemma_find(x, end, 0);
        if let Some(at) = text::find(x, end, 0) {
            let s = x.subrange(at, at + 3);
            assert(s[0] == x[at] && s[1] == x[at + 1] && s[2] == x[at + 2]);
            assert(end[0] == '-' && end[1] == '-' && end[2] == '>');
        }
        assert(x[0] == '<');
        text::lemma_index_of_is(x, '<', 0);
        assert(x.skip(0) =~= x);
        assert(x.subrange(0, 4) =~= open);
    }
    if c.len() > 0 && all_ordinary(c) && c[0] != '!' && c[0] != '?' {
        let t = seq!['<'] + c;
        assert(t[0] == '<' && t[1] == c[0]);
        text::lemma_index_of_is(t, '<', 0);
        assert(t.skip(0) =~= t);
        lemma_not_special(t, c[0]);
        assert forall|i: int| 1 <= i < t.len() implies is_ordinary(#[trigger] t[i]) by {
            assert(t[i] == c[i - 1]);
        }
        lemma_tag_end_ordinary(t, 1, t.len() as int);
    }
}

// ---- Which documents balance ----

/// Whether every element of some pieces is closed by the tag of its own name.
pub open spec fn balances(ps: Seq<Part>) -> bool {
    unbalanced(ps, Seq::empty()) is None
}

/// Pieces that balance leave what is open around them as it was.
proof fn lemma_balanced_frame(
    ps: Seq<Part>,
    base: Seq<Seq<char>>,
    open: Seq<Seq<char>>,
    rest: Seq<Part>,
)
    requires
        unbalanced(ps, open) is None,
    ensures
        unbalanced(ps + rest, base + open) == unbalanced(rest, base),
    decreases ps.len(),
{
    if ps.len() == 0 {
        assert(ps + rest =~= rest);
        assert(base + open =~= base);
    } else {
        assert((ps + rest)[0] == ps[0]);
        assert((ps + rest).skip(1) =~= ps.skip(1) + rest);
        match ps[0] {
            Part::Open { name, text } => {
                assert((base + open).push(name) =~= base + open.push(name));
                lemma_balanced_frame(ps.skip(1), base, open.push(name), rest);
            },
            Part::Close { name, text } => {
                assert((base + open).last() == open.last());
                assert((base + open).drop_last() =~= base + open.drop_last());
                lemma_balanced_frame(ps.skip(1), base, open.drop_last(), rest);
            },
            _ => {
                lemma_balanced_frame(ps.skip(1), base, open, rest);
            },
        }
    }
}

/// Nothing balances; so do text and what is whole; so do an element around pieces that do, and
/// pieces that do one after another.
pub proof fn law_what_balances(
    ps: Seq<Part>,
    qs: Seq<Part>,
    name: Seq<char>,
    opening: Seq<char>,
    closing: Seq<char>,
)
    requires
        balances(ps),
        balances(qs),
    ensures
        balances(Seq::empty()),
        balances(seq![Part::Text(opening)]),
        balances(seq![Part::Whole(opening)]),
        balances(ps + qs),
        balances(
            seq![Part::Open { name, text: opening }] + ps + seq![Part::Close { name, text: closing }],
        ),
{
    let none = Seq::<Seq<char>>::empty();
    let nothing = Seq::<Part>::empty();
    assert(none + none =~= none);
    lemma_balanced_frame(ps, none, none, qs);
    assert(seq![Part::Text(opening)].skip(1) =~= nothing);
    assert(seq![Part::Whole(opening)].skip(1) =~= nothing);
    let open = Part::Open { name, text: opening };
    let close = seq![Part::Close { name, text: closing }];
    let all = seq![open] + ps + close;
    assert(all[0] == open);
    assert(all.skip(1) =~= ps + close);
    let held = seq![name];
    assert(none.push(name) =~= held);
    assert(held + none =~= held);
    lemma_balanced_frame(ps, held, none, close);
    assert(close.skip(1) =~= nothing);
    assert(held.drop_last() =~= none);
}

/// What does not balance is refused for the first tag that is wrong: one that closes nothing, one
/// that closes another element than the last one open, and, at the end, the last one left open.
pub proof fn law_what_does_not_balance(
    ps: Seq<Part>,
    qs: Seq<Part>,
    rest: Seq<Part>,
    name: Seq<char>,
    other: Seq<char>,
    opening: Seq<char>,
    closing: Seq<char>,
)
    requires
        balances(ps),
        balances(qs),
    ensures
        unbalanced(ps + (seq![Part::Close { name, text: closing }] + rest), Seq::empty()) == Some(
            "Not valid XML, left as it was: "@ + ("</"@ + name + "> closes nothing"@),
        ),
        name != other ==> unbalanced(
            ps + (seq![Part::Open { name: other, text: opening }] + (qs + (seq![
                Part::Close { name, text: closing },
            ] + rest))),
            Seq::empty(),
        ) == Some(
            "Not valid XML, left as it was: "@ + ("</"@ + name + "> closes <"@ + other + ">"@),
        ),
        unbalanced(ps + (seq![Part::Open { name, text: opening }] + qs), Seq::empty()) == Some(
            "Not valid XML, left as it was: "@ + ("<"@ + name + "> is never closed"@),
        ),
{
    let none = Seq::<Seq<char>>::empty();
    let nothing = Seq::<Part>::empty();
    let close = seq![Part::Close { name, text: closing }] + rest;
    assert(none + none =~= none);
    assert(close[0] == (Part::Close { name, text: closing }));
    lemma_balanced_frame(ps, none, none, close);
    let inside = qs + close;
    let wrong = seq![Part::Open { name: other, text: opening }] + inside;
    lemma_balanced_frame(ps, none, none, wrong);
    assert(wrong[0] == (Part::Open { name: other, text: opening }));
    assert(wrong.skip(1) =~= inside);
    let held = seq![other];
    assert(none.push(other) =~= held);
    assert(held + none =~= held);
    lemma_balanced_frame(qs, held, none, close);
    let left = seq![Part::Open { name, text: opening }] + qs;
    lemma_balanced_frame(ps, none, none, left);
    assert(left[0] == (Part::Open { name, text: opening }));
    assert(left.skip(1) =~= qs);
    let kept = seq![name];
    assert(none.push(name) =~= kept);
    assert(kept + none =~= kept);
    assert(qs + nothing =~= qs);
    lemma_balanced_frame(qs, kept, none, nothing);
}

/// A document is laid out exactly when it can be cut into pieces that balance, and refused for
/// the reason it cannot.
pub proof fn law_a_document_that_balances_is_laid_out(
    s: Seq<char>,
    indent: Seq<char>,
    newline: Seq<char>,
)
    ensures
        formatted(s, indent, newline) is Ok <==> (cut(s) matches Ok(ps) && balances(ps)),
        cut(s) matches Err(why) ==> formatted(s, indent, newline) == Err::<Seq<char>, Seq<char>>(why),
        cut(s) matches Ok(ps) ==> (unbalanced(ps, Seq::empty()) matches Some(why) ==> formatted(
            s,
            indent,
            newline,
        ) == Err::<Seq<char>, Seq<char>>(why)),
{
}

/// What of a piece is written out: text without the white space around it, anything else to the
/// character.
pub open spec fn written(p: Part) -> Seq<char> {
    match p {
        Part::Open { name, text } => text,
        Part::Close { name, text } => text,
        Part::Whole(text) => text,
        Part::Text(text) => text::trim(text),
    }
}

/// How many elements are open before the piece at `i`: those opened less those closed.
pub open spec fn depth_at(ps: Seq<Part>, i: int) -> int
    decreases i,
{
    if i <= 0 {
        0
    } else {
        depth_at(ps, i - 1) + (if ps[i - 1] is Open {
            1int
        } else if ps[i - 1] is Close {
            -1int
        } else {
            0int
        })
    }
}

/// Whether an element that holds nothing starts at `i`.
pub open spec fn is_empty_element(ps: Seq<Part>, i: int) -> bool {
    0 <= i && i + 1 < ps.len() && ps[i] is Open && ps[i + 1] is Close
}

/// Whether an element that holds only text starts at `i`.
pub open spec fn is_text_element(ps: Seq<Part>, i: int) -> bool {
    0 <= i && i + 2 < ps.len() && ps[i] is Open && ps[i + 1] is Text && ps[i + 2] is Close
}

/// Whether the piece at `i` is on the line of the element it ends or fills.
pub open spec fn rides_along(ps: Seq<Part>, i: int) -> bool {
    is_empty_element(ps, i - 1) || is_text_element(ps, i - 1) || is_text_element(ps, i - 2)
}

/// Whether the line of the piece at `i` stands where `at` says: indented once for every element
/// around it, an element that holds nothing or only text on one line.
pub open spec fn line_stands(
    out: Seq<char>,
    ps: Seq<Part>,
    at: Seq<int>,
    i: int,
    indent: Seq<char>,
    newline: Seq<char>,
) -> bool {
    let deep = if ps[i] is Close {
        depth_at(ps, i) - 1
    } else {
        depth_at(ps, i)
    };
    let start = at[i] + deep * indent.len();
    &&& deep >= 0
    &&& text::stacked(out, at[i], indent, deep as nat)
    &&& if is_empty_element(ps, i) {
        start <= at[i + 2] <= out.len() && out.subrange(start, at[i + 2]) == written(ps[i])
            + written(ps[i + 1]) + newline
    } else if is_text_element(ps, i) {
        start <= at[i + 3] <= out.len() && out.subrange(start, at[i + 3]) == written(ps[i])
            + written(ps[i + 1]) + written(ps[i + 2]) + newline
    } else {
        start <= at[i + 1] <= out.len() && out.subrange(start, at[i + 1]) == written(ps[i])
            + newline
    }
}

/// Whether a text is the lines of the pieces and nothing else, `at` saying where each starts.
pub open spec fn stands_in_lines(
    out: Seq<char>,
    ps: Seq<Part>,
    at: Seq<int>,
    indent: Seq<char>,
    newline: Seq<char>,
) -> bool {
    &&& at.len() == ps.len() + 1
    &&& at[0] == 0
    &&& at[ps.len() as int] == out.len()
    &&& forall|i: int|
        0 <= i < ps.len() && !rides_along(ps, i) ==> #[trigger] line_stands(
            out,
            ps,
            at,
            i,
            indent,
            newline,
        )
}

/// What stands between a start and an end.
proof fn lemma_middle(before: Seq<char>, pad: Seq<char>, body: Seq<char>, after: Seq<char>)
    ensures
        ({
            let start = before.len() + pad.len();
            (before + (pad + body + after)).subrange(start as int, (start + body.len()) as int)
                == body
        }),
{
    let start = before.len() + pad.len();
    assert((before + (pad + body + after)).subrange(start as int, (start + body.len()) as int)
        =~= body);
}

/// The line that starts with the piece at `i`, and what is left after it.
proof fn lemma_one_line(
    out: Seq<char>,
    before: Seq<char>,
    ps: Seq<Part>,
    i: int,
    open: Seq<Seq<char>>,
    indent: Seq<char>,
    newline: Seq<char>,
)
    requires
        0 <= i < ps.len(),
        unbalanced(ps.skip(i), open) is None,
        open.len() == depth_at(ps, i),
        out == before + lines(ps.skip(i), open.len(), indent, newline),
    ensures
        ({
            let now = ps.skip(i);
            let k = on_line(now) as int;
            let line = text::repeat(indent, line_depth(now, open.len())) + line_text(now) + newline;
            let left = before + line;
            &&& 1 <= k <= now.len()
            &&& ps.skip(i).skip(k) == ps.skip(i + k)
            &&& out == left + lines(ps.skip(i + k), next_depth(now, open.len()), indent, newline)
            &&& k == 2 <==> is_empty_element(ps, i)
            &&& k == 3 <==> is_text_element(ps, i)
            &&& next_depth(now, open.len()) == depth_at(ps, i + k)
            &&& exists|next: Seq<Seq<char>>|
                #![trigger next.len()]
                next.len() == depth_at(ps, i + k) && unbalanced(ps.skip(i + k), next) is None
        }),
{
    let now = ps.skip(i);
    let k = on_line(now) as int;
    let line = text::repeat(indent, line_depth(now, open.len())) + line_text(now) + newline;
    let left = before + line;
    assert(now[0] == ps[i]);
    reveal_with_fuel(depth_at, 5);
    reveal_with_fuel(unbalanced, 5);
    if now.len() > 1 {
        assert(now[1] == ps[i + 1]);
        assert(now.skip(1)[0] == ps[i + 1]);
        assert(now.skip(1).skip(1) =~= ps.skip(i + 2));
    }
    if now.len() > 2 {
        assert(now[2] == ps[i + 2]);
        assert(ps.skip(i + 2)[0] == ps[i + 2]);
        assert(ps.skip(i + 2).skip(1) =~= ps.skip(i + 3));
    }
    assert(now.skip(1) =~= ps.skip(i + 1));
    assert(now.skip(k) =~= ps.skip(i + k));
    assert(out =~= left + lines(ps.skip(i + k), next_depth(now, open.len()), indent, newline));
    let next: Seq<Seq<char>> = match ps[i] {
        Part::Open { name, text } => {
            assert(open.push(name).drop_last() =~= open);
            assert(open.push(name).last() == name);
            if k == 1 {
                open.push(name)
            } else {
                open
            }
        },
        Part::Close { name, text } => open.drop_last(),
        _ => open,
    };
    assert(next.len() == depth_at(ps, i + k) && unbalanced(ps.skip(i + k), next) is None);
}

proof fn lemma_lines_stand(
    out: Seq<char>,
    before: Seq<char>,
    ps: Seq<Part>,
    i: int,
    open: Seq<Seq<char>>,
    indent: Seq<char>,
    newline: Seq<char>,
) -> (at: Seq<int>)
    requires
        0 <= i <= ps.len(),
        unbalanced(ps.skip(i), open) is None,
        open.len() == depth_at(ps, i),
        out == before + lines(ps.skip(i), open.len(), indent, newline),
    ensures
        at.len() == ps.len() + 1,
        at[i] == before.len(),
        at[ps.len() as int] == out.len(),
        forall|j: int|
            i <= j < ps.len() && !rides_along(ps, j) ==> #[trigger] line_stands(
                out,
                ps,
                at,
                j,
                indent,
                newline,
            ),
    decreases ps.len() - i,
{
    if i == ps.len() {
        assert(out =~= before);
        Seq::new(ps.len() + 1, |j: int| out.len() as int)
    } else {
        let now = ps.skip(i);
        let k = on_line(now) as int;
        let deep = line_depth(now, open.len());
        let pad = text::repeat(indent, deep);
        let body = line_text(now) + newline;
        let left = before + (pad + line_text(now) + newline);
        lemma_one_line(out, before, ps, i, open, indent, newline);
        let next = choose|next: Seq<Seq<char>>|
            #![trigger next.len()]
            next.len() == depth_at(ps, i + k) && unbalanced(ps.skip(i + k), next) is None;
        let later = lemma_lines_stand(out, left, ps, i + k, next, indent, newline);
        let at = later.update(i, before.len() as int);
        let after = lines(ps.skip(i + k), next.len(), indent, newline);
        assert(out =~= before + (pad + body + after));
        assert(out =~= before + pad + (body + after));
        lemma_middle(before, pad, body, after);
        text::law_repeat_is_copies(before, indent, deep, body + after);
        assert(now[0] == ps[i]);
        assert(ps[i] is Close ==> open.len() > 0) by {
            reveal_with_fuel(unbalanced, 2);
        }
        assert(at[i + k] == before.len() + pad.len() + body.len());
        if now.len() > 1 {
            assert(now[1] == ps[i + 1]);
        }
        if now.len() > 2 {
            assert(now[2] == ps[i + 2]);
        }
        assert(line_stands(out, ps, at, i, indent, newline));
        assert forall|j: int| i <= j < ps.len() && !rides_along(ps, j) implies #[trigger] line_stands(
            out,
            ps,
            at,
            j,
            indent,
            newline,
        ) by {
            if j > i {
                if j < i + k {
                    assert(rides_along(ps, j));
                }
                assert(line_stands(out, ps, later, j, indent, newline));
            }
        }
        at
    }
}

/// A document that is laid out is one line after another and nothing else: each tag, comment and
/// text on a line of its own, but for an element that holds nothing or only text, which is on
/// one; each indented once for every element around it.
pub proof fn law_each_piece_is_on_its_line(ps: Seq<Part>, indent: Seq<char>, newline: Seq<char>)
    requires
        balances(ps),
        ps.len() > 0,
    ensures
        exists|at: Seq<int>|
            #[trigger] stands_in_lines(laid(ps, indent, newline), ps, at, indent, newline),
{
    let out = laid(ps, indent, newline);
    let none = Seq::<char>::empty();
    assert(ps.skip(0) =~= ps);
    assert(none + out =~= out);
    let at = lemma_lines_stand(out, none, ps, 0, Seq::empty(), indent, newline);
    assert(stands_in_lines(out, ps, at, indent, newline));
}

/// A document with nothing in it but white space is an empty line.
pub proof fn law_nothing_is_an_empty_line(s: Seq<char>, indent: Seq<char>, newline: Seq<char>)
    requires
        text::all_space(s),
    ensures
        formatted(s, indent, newline) == Ok::<Seq<char>, Seq<char>>(newline),
{
    let none = Seq::<char>::empty();
    assert forall|i: int| 0 <= i < s.len() implies #[trigger] s[i] != '<' by {
        assert(text::is_space(s[i]));
    }
    law_text_is_kept_unless_it_is_blank(s, none);
    assert(s + none =~= s);
    text::lemma_index_of_is(none, '<', 0);
    text::lemma_trim_blank(none);
    assert(none.take(0) =~= none);
    assert(cut(none) =~= Ok::<Seq<Part>, Seq<char>>(Seq::empty()));
}

/// A tag that another one starts in, outside quotes, is never ended, and one whose name is left
/// out is refused.
pub proof fn law_a_broken_tag_is_refused(body: Seq<char>, rest: Seq<char>)
    requires
        body.len() > 0,
        all_ordinary(body),
        body[0] != '!' && body[0] != '?',
    ensures
        cut(seq!['<'] + body + seq!['<'] + rest) == Err::<Seq<Part>, Seq<char>>(
            "Not valid XML, left as it was: "@ + ("unterminated "@ + "tag"@),
        ),
        text::is_space(body[0]) && body.last() != '/' ==> cut(seq!['<'] + body + seq!['>'] + rest)
            == Err::<Seq<Part>, Seq<char>>(
            "Not valid XML, left as it was: "@ + "a tag with no name"@,
        ),
{
    reveal(markup);
    let n = body.len() as int;
    let t = seq!['<'] + body + seq!['<'] + rest;
    assert(t[0] == '<' && t[1] == body[0]);
    text::lemma_index_of_is(t, '<', 0);
    assert(t.skip(0) =~= t);
    lemma_not_special(t, body[0]);
    assert forall|i: int| 1 <= i < n + 1 implies is_ordinary(#[trigger] t[i]) by {
        assert(t[i] == body[i - 1]);
    }
    lemma_tag_end_ordinary(t, 1, n + 1);
    assert(t[n + 1] == '<');
    if text::is_space(body[0]) && body.last() != '/' {
        let u = seq!['<'] + body + seq!['>'] + rest;
        assert(u[0] == '<' && u[1] == body[0]);
        text::lemma_index_of_is(u, '<', 0);
        assert(u.skip(0) =~= u);
        lemma_not_special(u, body[0]);
        assert forall|i: int| 1 <= i < n + 1 implies is_ordinary(#[trigger] u[i]) by {
            assert(u[i] == body[i - 1]);
        }
        lemma_tag_end_ordinary(u, 1, n + 1);
        assert(u[n + 1] == '>');
        let tag = u.take(n + 2);
        assert(tag =~= seq!['<'] + body + seq!['>']);
        lemma_not_special(tag, body[0]);
        assert(tag.subrange(1, n + 1) =~= body);
        assert(!text::ends_with(tag, seq!['/', '>'])) by {
            if text::ends_with(tag, seq!['/', '>']) {
                assert(tag.subrange(n, n + 2)[0] == tag[n]);
                assert(seq!['/', '>'][0] == '/');
                assert(tag[n] == body[n - 1]);
            }
        }
        assert(first_word(body).len() == 0);
    }
}

/// A CDATA section that is never ended, and a declaration that is never ended, are refused.
pub proof fn law_a_section_that_never_ends_is_refused(c: Seq<char>)
    ensures
        (forall|i: int|
            0 <= i && i + 2 < c.len() ==> !(#[trigger] c[i] == ']' && c[i + 1] == ']' && c[i + 2]
                == '>')) ==> cut(seq!['<', '!', '[', 'C', 'D', 'A', 'T', 'A', '['] + c) == Err::<
            Seq<Part>,
            Seq<char>,
        >("Not valid XML, left as it was: "@ + ("unterminated "@ + "CDATA section"@)),
        ({
            let x = seq!['<', '?'] + c;
            (forall|i: int|
                0 <= i && i + 1 < x.len() ==> !(#[trigger] x[i] == '?' && x[i + 1] == '>')) ==> cut(x)
                == Err::<Seq<Part>, Seq<char>>(
                "Not valid XML, left as it was: "@ + ("unterminated "@ + "declaration"@),
            )
        }),
{
    reveal(markup);
    let cdata = seq!['<', '!', '[', 'C', 'D', 'A', 'T', 'A', '['];
    let end = seq![']', ']', '>'];
    let y = cdata + c;
    if forall|i: int|
        0 <= i && i + 2 < c.len() ==> !(#[trigger] c[i] == ']' && c[i + 1] == ']' && c[i + 2] == '>') {
        text::lemma_find(y, end, 0);
        if let Some(at) = text::find(y, end, 0) {
            let s = y.subrange(at, at + 3);
            assert(s[0] == y[at] && s[1] == y[at + 1] && s[2] == y[at + 2]);
            assert(end[0] == ']' && end[1] == ']' && end[2] == '>');
            if at >= 9 {
                assert(y[at] == c[at - 9] && y[at + 1] == c[at - 8] && y[at + 2] == c[at - 7]);
            } else {
                assert(y[at] == cdata[at]);
            }
        }
        assert(y[0] == '<');
        text::lemma_index_of_is(y, '<', 0);
        assert(y.skip(0) =~= y);
        assert(y.subrange(0, 9) =~= cdata);
        assert(!text::starts_with(y, seq!['<', '!', '-', '-'])) by {
            if text::starts_with(y, seq!['<', '!', '-', '-']) {
                assert(y.subrange(0, 4)[2] == y[2]);
                assert(seq!['<', '!', '-', '-'][2] == '-');
            }
        }
    }
    let open = seq!['<', '?'];
    let stop = seq!['?', '>'];
    let x = open + c;
    if forall|i: int| 0 <= i && i + 1 < x.len() ==> !(#[trigger] x[i] == '?' && x[i + 1] == '>') {
        text::lemma_find(x, stop, 0);
        if let Some(at) = text::find(x, stop, 0) {
            let s = x.subrange(at, at + 2);
            assert(s[0] == x[at] && s[1] == x[at + 1]);
            assert(stop[0] == '?' && stop[1] == '>');
        }
        assert(x[0] == '<' && x[1] == '?');
        text::lemma_index_of_is(x, '<', 0);
        assert(x.skip(0) =~= x);
        assert(x.subrange(0, 2) =~= open);
        lemma_not_special(x, '?');
    }
}

} // verus!
