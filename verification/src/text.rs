//! Text as a sequence of characters: what the readers and the formatters cut it with.
//!
//! Every function here is stated over the characters of a text, never over its bytes, so a
//! cut always falls between two of them.

use vstd::prelude::*;
use vstd::string::*;
use vstd::utf8::*;

verus! {

/// `String::push`: the character goes after the ones already there.
pub assume_specification[ String::push ](held: &mut String, last: char)
    ensures
        final(held)@ == old(held)@.push(last),
;

/// What the bytes read as when they are taken for UTF-8 whatever they are.
pub uninterp spec fn lossy(bytes: Seq<u8>) -> Seq<char>;

/// `String::from_utf8_lossy`: bytes that are UTF-8 read as the text they encode; what any
/// others read as is the bytes' alone to decide.
#[verifier::external_body]
pub(crate) fn from_lossy(bytes: &[u8]) -> (text: String)
    ensures
        text@ == lossy(bytes@),
        valid_utf8(bytes@) ==> text@ == decode_utf8(bytes@),
{
    String::from_utf8_lossy(bytes).into_owned()
}

/// The text as a Rust string literal would write it.
pub uninterp spec fn quoted(text: Seq<char>) -> Seq<char>;

/// `format!("{:?}")` of a text: what it writes depends on the text alone.
#[verifier::external_body]
pub(crate) fn quote(text: &str) -> (literal: String)
    ensures
        literal@ == quoted(text@),
{
    format!("{text:?}")
}

/// The text with every letter in lower case.
pub uninterp spec fn lowercase(text: Seq<char>) -> Seq<char>;

/// `str::to_lowercase`: what it gives depends on the text alone.
#[verifier::external_body]
pub(crate) fn to_lowercase(text: &str) -> (lower: String)
    ensures
        lower@ == lowercase(text@),
{
    text.to_lowercase()
}

/// The characters of a text.
pub fn chars_of(text: &str) -> (chars: Vec<char>)
    ensures
        chars@ == text@,
{
    let mut chars: Vec<char> = Vec::new();
    for c in it: text.chars()
        invariant
            chars@ == it.seq().take(it.index() as int),
            it.seq() == text@,
    {
        chars.push(c);
    }
    chars
}

/// The text the characters make.
pub fn string_of(chars: &Vec<char>) -> (text: String)
    ensures
        text@ == chars@,
{
    let mut text = String::new();
    for i in 0..chars.len()
        invariant
            text@ == chars@.take(i as int),
    {
        text.push(chars[i]);
    }
    assert(chars@.take(chars@.len() as int) == chars@);
    text
}

/// Puts the characters of `more` after those of `chars`.
pub fn push_all(chars: &mut Vec<char>, more: &Vec<char>)
    ensures
        final(chars)@ == old(chars)@ + more@,
{
    for i in 0..more.len()
        invariant
            chars@ == old(chars)@ + more@.take(i as int),
    {
        chars.push(more[i]);
    }
    assert(more@.take(more@.len() as int) == more@);
}

/// Whether two texts are the same characters.
pub fn same(a: &str, b: &str) -> (equal: bool)
    ensures
        equal == (a@ == b@),
{
    same_chars(&chars_of(a), &chars_of(b))
}

/// Whether two runs of characters are the same.
pub fn same_chars(a: &Vec<char>, b: &Vec<char>) -> (equal: bool)
    ensures
        equal == (a@ == b@),
{
    if a.len() != b.len() {
        return false;
    }
    for i in 0..a.len()
        invariant
            a.len() == b.len(),
            forall|j: int| 0 <= j < i ==> a@[j] == b@[j],
    {
        if a[i] != b[i] {
            return false;
        }
    }
    assert(a@ =~= b@);
    true
}

/// Whether some characters spell a word.
pub fn spells(chars: &Vec<char>, word: &str) -> (yes: bool)
    ensures
        yes == (chars@ == word@),
{
    same_chars(chars, &chars_of(word))
}

/// The same texts again.
pub fn copy_words(list: &Vec<String>) -> (copy: Vec<String>)
    ensures
        views(copy@) == views(list@),
{
    let mut copy: Vec<String> = Vec::new();
    let ghost all = views(list@);
    for i in 0..list.len()
        invariant
            all == views(list@),
            views(copy@) == all.take(i as int),
    {
        push_word(&mut copy, list[i].as_str());
        assert(all[i as int] == list@[i as int]@);
        assert(views(copy@) =~= all.take(i + 1));
    }
    assert(all.take(all.len() as int) =~= all);
    copy
}

/// How many characters a text has.
pub fn length(text: &str) -> (n: usize)
    ensures
        n == text@.len(),
{
    chars_of(text).len()
}

/// Adds a text to a list of them.
pub fn push_word(list: &mut Vec<String>, word: &str)
    ensures
        views(final(list)@) == views(old(list)@).push(word@),
        final(list).len() == old(list).len() + 1,
{
    let ghost held = list@;
    list.push(word.to_owned());
    assert(views(list@) =~= views(held).push(word@));
}

/// The views of an optional text.
pub open spec fn optional(text: Option<String>) -> Option<Seq<char>> {
    match text {
        Some(text) => Some(text@),
        None => None,
    }
}

/// The views of several texts.
pub open spec fn views(texts: Seq<String>) -> Seq<Seq<char>> {
    texts.map_values(|text: String| text@)
}

/// A copy of an optional text.
pub fn copy_optional(text: &Option<String>) -> (copy: Option<String>)
    ensures
        optional(copy) == optional(*text),
        copy == *text,
{
    match text {
        Some(text) => Some(text.clone()),
        None => None,
    }
}

/// Whether two optional texts are the same.
pub fn same_optional(a: &Option<String>, b: &Option<String>) -> (equal: bool)
    ensures
        equal == (optional(*a) == optional(*b)),
{
    match (a, b) {
        (Some(a), Some(b)) => same(a.as_str(), b.as_str()),
        (None, None) => true,
        _ => false,
    }
}

// ---- White space ----

/// Whether Unicode counts the character as white space.
pub open spec fn is_space(c: char) -> bool {
    ||| '\u{9}' <= c <= '\u{d}'
    ||| c == ' '
    ||| c == '\u{85}'
    ||| c == '\u{a0}'
    ||| c == '\u{1680}'
    ||| '\u{2000}' <= c <= '\u{200a}'
    ||| c == '\u{2028}'
    ||| c == '\u{2029}'
    ||| c == '\u{202f}'
    ||| c == '\u{205f}'
    ||| c == '\u{3000}'
}

/// Whether every character is white space.
pub open spec fn all_space(s: Seq<char>) -> bool {
    forall|i: int| 0 <= i < s.len() ==> is_space(#[trigger] s[i])
}

/// The text without the white space it starts with.
pub open spec fn trim_start(s: Seq<char>) -> Seq<char>
    decreases s.len(),
{
    if s.len() > 0 && is_space(s.first()) {
        trim_start(s.skip(1))
    } else {
        s
    }
}

/// The text without the white space it ends with.
pub open spec fn trim_end(s: Seq<char>) -> Seq<char>
    decreases s.len(),
{
    if s.len() > 0 && is_space(s.last()) {
        trim_end(s.drop_last())
    } else {
        s
    }
}

/// The text without the white space around it.
pub open spec fn trim(s: Seq<char>) -> Seq<char> {
    trim_end(trim_start(s))
}

/// `s`, `n` times over.
pub open spec fn repeat(s: Seq<char>, n: nat) -> Seq<char>
    decreases n,
{
    if n == 0 {
        Seq::empty()
    } else {
        repeat(s, (n - 1) as nat) + s
    }
}

/// White space over and over is white space.
pub proof fn lemma_repeat_space(s: Seq<char>, n: nat)
    requires
        all_space(s),
    ensures
        all_space(repeat(s, n)),
    decreases n,
{
    if n > 0 {
        lemma_repeat_space(s, (n - 1) as nat);
    }
}

/// Whether Unicode counts the character as white space.
pub fn space(c: char) -> (yes: bool)
    ensures
        yes == is_space(c),
{
    ('\u{9}' <= c && c <= '\u{d}') || c == ' ' || c == '\u{85}' || c == '\u{a0}' || c == '\u{1680}'
        || ('\u{2000}' <= c && c <= '\u{200a}') || c == '\u{2028}' || c == '\u{2029}' || c
        == '\u{202f}' || c == '\u{205f}' || c == '\u{3000}'
}

/// The characters from `from` up to `to`.
pub fn part(s: &Vec<char>, from: usize, to: usize) -> (cut: Vec<char>)
    requires
        from <= to <= s.len(),
    ensures
        cut@ == s@.subrange(from as int, to as int),
{
    let mut cut: Vec<char> = Vec::new();
    let mut i = from;
    while i < to
        invariant
            from <= i <= to <= s.len(),
            cut@ == s@.subrange(from as int, i as int),
        decreases to - i,
    {
        cut.push(s[i]);
        i += 1;
    }
    cut
}

/// The characters without the white space they start with.
pub fn trimmed_start(s: &Vec<char>) -> (t: Vec<char>)
    ensures
        t@ == trim_start(s@),
{
    let mut i: usize = 0;
    assert(s@.skip(0) == s@);
    while i < s.len() && space(s[i])
        invariant
            i <= s.len(),
            trim_start(s@) == trim_start(s@.skip(i as int)),
        decreases s.len() - i,
    {
        assert(s@.skip(i as int).skip(1) == s@.skip(i + 1));
        i += 1;
    }
    assert(s@.skip(i as int) == s@.subrange(i as int, s@.len() as int));
    part(s, i, s.len())
}

/// The characters without the white space they end with.
pub fn trimmed_end(s: &Vec<char>) -> (t: Vec<char>)
    ensures
        t@ == trim_end(s@),
{
    let mut n: usize = s.len();
    assert(s@.take(n as int) == s@);
    while n > 0 && space(s[n - 1])
        invariant
            n <= s.len(),
            trim_end(s@) == trim_end(s@.take(n as int)),
        decreases n,
    {
        assert(s@.take(n as int).drop_last() == s@.take(n - 1));
        n -= 1;
    }
    assert(s@.take(n as int) == s@.subrange(0, n as int));
    part(s, 0, n)
}

/// The characters without the white space around them.
pub fn trimmed(s: &Vec<char>) -> (t: Vec<char>)
    ensures
        t@ == trim(s@),
{
    trimmed_end(&trimmed_start(s))
}

/// Whether there is nothing but white space.
pub fn blank(s: &Vec<char>) -> (yes: bool)
    ensures
        yes == (trim(s@).len() == 0),
        yes == all_space(s@),
{
    proof {
        lemma_trim_blank(s@);
    }
    trimmed(s).len() == 0
}

/// Trimming leaves nothing exactly when there was nothing but white space.
pub proof fn lemma_trim_blank(s: Seq<char>)
    ensures
        trim(s).len() == 0 <==> all_space(s),
{
    lemma_trim_start(s);
    lemma_trim_end(trim_start(s));
    let k = s.len() - trim_start(s).len();
    if trim(s).len() == 0 {
        let t = trim_start(s);
        assert forall|i: int| 0 <= i < s.len() implies is_space(#[trigger] s[i]) by {
            if i >= k {
                assert(t.skip(0)[i - k] == s[i]);
            } else {
                assert(s.take(k)[i] == s[i]);
            }
        }
    }
    if all_space(s) && trim(s).len() > 0 {
        assert(is_space(trim_start(s)[0]));
    }
}

/// What is cut off a text's start is white space, and what is left does not start with any.
pub proof fn lemma_trim_start(s: Seq<char>)
    ensures
        trim_start(s).len() <= s.len(),
        trim_start(s) == s.skip(s.len() - trim_start(s).len()),
        all_space(s.take(s.len() - trim_start(s).len())),
        trim_start(s).len() > 0 ==> !is_space(trim_start(s)[0]),
    decreases s.len(),
{
    if s.len() > 0 && is_space(s.first()) {
        let t = s.skip(1);
        lemma_trim_start(t);
        let k = t.len() - trim_start(t).len();
        assert(t.skip(k) == s.skip(k + 1));
        assert forall|i: int| 0 <= i < k + 1 implies is_space(#[trigger] s.take(k + 1)[i]) by {
            if i > 0 {
                assert(t.take(k)[i - 1] == s[i]);
            }
        }
    } else {
        assert(s.skip(0) == s);
    }
}

/// What is cut off a text's end is white space, and what is left does not end with any.
pub proof fn lemma_trim_end(s: Seq<char>)
    ensures
        trim_end(s).len() <= s.len(),
        trim_end(s) == s.take(trim_end(s).len() as int),
        all_space(s.skip(trim_end(s).len() as int)),
        trim_end(s).len() > 0 ==> !is_space(trim_end(s).last()),
    decreases s.len(),
{
    if s.len() > 0 && is_space(s.last()) {
        let t = s.drop_last();
        lemma_trim_end(t);
        let k = trim_end(t).len() as int;
        assert(t.take(k) == s.take(k));
        assert forall|i: int| 0 <= i < s.len() - k implies is_space(#[trigger] s.skip(k)[i]) by {
            if i < t.len() - k {
                assert(t.skip(k)[i] == s[i + k]);
            }
        }
    } else {
        assert(s.take(s.len() as int) == s);
    }
}

/// White space on either side of a text makes no difference to what is left of it.
pub proof fn lemma_trim_around(before: Seq<char>, s: Seq<char>, after: Seq<char>)
    requires
        all_space(before),
        all_space(after),
    ensures
        trim(before + s + after) == trim(s),
{
    let whole = before + s + after;
    lemma_trim_start(s);
    let t = trim_start(s);
    let k = s.len() - t.len();
    if t.len() == 0 {
        assert(all_space(whole)) by {
            assert forall|i: int| 0 <= i < whole.len() implies is_space(#[trigger] whole[i]) by {
                if i < before.len() {
                    assert(whole[i] == before[i]);
                } else if i < before.len() + s.len() {
                    assert(whole[i] == s.take(k)[i - before.len()]);
                } else {
                    assert(whole[i] == after[i - before.len() - s.len()]);
                }
            }
        }
        assert(all_space(s)) by {
            assert forall|i: int| 0 <= i < s.len() implies is_space(#[trigger] s[i]) by {
                assert(s[i] == s.take(k)[i]);
            }
        }
        lemma_trim_blank(whole);
        lemma_trim_blank(s);
        assert(trim(whole) =~= trim(s));
    } else {
        assert(all_space(before + s.take(k))) by {
            assert forall|i: int| 0 <= i < before.len() + k implies is_space(
                #[trigger] (before + s.take(k))[i],
            ) by {
                if i < before.len() {
                    assert((before + s.take(k))[i] == before[i]);
                } else {
                    assert((before + s.take(k))[i] == s.take(k)[i - before.len()]);
                }
            }
        }
        assert(whole == (before + s.take(k)) + (t + after));
        lemma_trim_start_skips(before + s.take(k), t + after);
        lemma_trim_end_skips(t, after);
    }
}

/// The white space a text starts with is all that goes from its start.
pub proof fn lemma_trim_start_skips(before: Seq<char>, s: Seq<char>)
    requires
        all_space(before),
        s.len() > 0,
        !is_space(s[0]),
    ensures
        trim_start(before + s) == s,
    decreases before.len(),
{
    if before.len() == 0 {
        assert(before + s == s);
    } else {
        assert((before + s).skip(1) == before.skip(1) + s);
        assert((before + s).first() == before[0]);
        assert(all_space(before.skip(1))) by {
            assert forall|i: int| 0 <= i < before.len() - 1 implies is_space(
                #[trigger] before.skip(1)[i],
            ) by {
                assert(before.skip(1)[i] == before[i + 1]);
            }
        }
        lemma_trim_start_skips(before.skip(1), s);
    }
}

/// White space after a text makes no difference to what is left of its end.
pub proof fn lemma_trim_end_skips(s: Seq<char>, after: Seq<char>)
    requires
        all_space(after),
    ensures
        trim_end(s + after) == trim_end(s),
    decreases after.len(),
{
    if after.len() == 0 {
        assert(s + after == s);
    } else {
        assert((s + after).drop_last() == s + after.drop_last());
        assert((s + after).last() == after.last());
        assert(all_space(after.drop_last()));
        lemma_trim_end_skips(s, after.drop_last());
    }
}

/// A trimmed text has nothing left to trim.
pub proof fn lemma_trim_twice(s: Seq<char>)
    ensures
        trim(trim(s)) == trim(s),
        trim(s).len() > 0 ==> !is_space(trim(s)[0]) && !is_space(trim(s).last()),
{
    lemma_trim_start(s);
    lemma_trim_end(trim_start(s));
    let t = trim(s);
    if t.len() > 0 {
        assert(t[0] == trim_start(s)[0]);
    }
}

/// A trimmed text is a stretch of the text it came from.
pub proof fn lemma_trim_within(s: Seq<char>) -> (from: int)
    ensures
        0 <= from <= from + trim(s).len() <= s.len(),
        trim(s) == s.subrange(from, from + trim(s).len()),
        all_space(s.take(from)),
        all_space(s.skip(from + trim(s).len())),
{
    lemma_trim_start(s);
    lemma_trim_end(trim_start(s));
    let from = s.len() - trim_start(s).len();
    let t = trim_start(s);
    assert(trim(s) =~= s.subrange(from, from + trim(s).len()));
    assert(s.skip(from + trim(s).len()) =~= t.skip(trim(s).len() as int));
    from
}

// ---- Looking for one text in another ----

/// Whether `what` stands in `s` at `at`.
pub open spec fn stands_at(s: Seq<char>, what: Seq<char>, at: int) -> bool {
    &&& 0 <= at
    &&& at + what.len() <= s.len()
    &&& s.subrange(at, at + what.len()) == what
}

/// Whether `s` starts with `what`.
pub open spec fn starts_with(s: Seq<char>, what: Seq<char>) -> bool {
    stands_at(s, what, 0)
}

/// Whether `s` ends with `what`.
pub open spec fn ends_with(s: Seq<char>, what: Seq<char>) -> bool {
    stands_at(s, what, s.len() - what.len())
}

/// The first place at or after `from` where `what` stands in `s`.
pub open spec fn find(s: Seq<char>, what: Seq<char>, from: int) -> Option<int>
    decreases s.len() - from + 1,
{
    if from + what.len() > s.len() {
        None
    } else if stands_at(s, what, from) {
        Some(from)
    } else {
        find(s, what, from + 1)
    }
}

/// Whether `what` stands in `s` at `at`.
pub fn holds(s: &Vec<char>, what: &Vec<char>, at: usize) -> (yes: bool)
    requires
        at <= s.len(),
    ensures
        yes == stands_at(s@, what@, at as int),
{
    if what.len() > s.len() - at {
        return false;
    }
    for i in 0..what.len()
        invariant
            at + what.len() <= s.len(),
            forall|j: int| 0 <= j < i ==> s@[at + j] == what@[j],
    {
        if s[at + i] != what[i] {
            assert(s@.subrange(at as int, at + what@.len())[i as int] == s@[at + i]);
            return false;
        }
    }
    assert(s@.subrange(at as int, at + what@.len()) =~= what@);
    true
}

/// The first place at or after `from` where `what` stands in `s`.
pub fn position(s: &Vec<char>, what: &Vec<char>, from: usize) -> (found: Option<usize>)
    requires
        from <= s.len(),
    ensures
        match found {
            Some(index) => find(s@, what@, from as int) == Some(index as int),
            None => find(s@, what@, from as int) is None,
        },
{
    let mut i = from;
    while what.len() <= s.len() - i
        invariant
            from <= i <= s.len(),
            find(s@, what@, from as int) == find(s@, what@, i as int),
        decreases s.len() - i,
    {
        if holds(s, what, i) {
            return Some(i);
        }
        if i == s.len() {
            assert(s@.subrange(i as int, i + what@.len()) =~= what@);
            return None;
        }
        i += 1;
    }
    None
}

/// What is found is where the search says, and nowhere before it.
pub proof fn lemma_find(s: Seq<char>, what: Seq<char>, from: int)
    requires
        0 <= from,
    ensures
        match find(s, what, from) {
            Some(index) => {
                &&& from <= index
                &&& stands_at(s, what, index)
                &&& forall|i: int| from <= i < index ==> !stands_at(s, what, i)
            },
            None => forall|i: int| from <= i ==> !stands_at(s, what, i),
        },
    decreases s.len() - from + 1,
{
    if from + what.len() <= s.len() && !stands_at(s, what, from) {
        lemma_find(s, what, from + 1);
    }
}

/// The place of the first `c` in `s`, or its length when there is none.
pub open spec fn index_of(s: Seq<char>, c: char) -> int
    decreases s.len(),
{
    if s.len() == 0 || s.first() == c {
        0
    } else {
        1 + index_of(s.skip(1), c)
    }
}

/// The place of the first `c` at or after `from`, or the length when there is none.
pub fn place_of(s: &Vec<char>, c: char, from: usize) -> (found: usize)
    requires
        from <= s.len(),
    ensures
        found == from + index_of(s@.skip(from as int), c),
        from <= found <= s.len(),
{
    let mut i = from;
    while i < s.len() && s[i] != c
        invariant
            from <= i <= s.len(),
            from + index_of(s@.skip(from as int), c) == i + index_of(s@.skip(i as int), c),
        decreases s.len() - i,
    {
        assert(s@.skip(i as int).skip(1) == s@.skip(i + 1));
        i += 1;
    }
    i
}

/// The first `c` is where `index_of` says: nothing before it is one.
pub proof fn lemma_index_of(s: Seq<char>, c: char)
    ensures
        0 <= index_of(s, c) <= s.len(),
        index_of(s, c) < s.len() ==> s[index_of(s, c)] == c,
        forall|i: int| 0 <= i < index_of(s, c) ==> s[i] != c,
    decreases s.len(),
{
    if s.len() > 0 && s.first() != c {
        let t = s.skip(1);
        lemma_index_of(t, c);
        assert forall|i: int| 0 <= i < index_of(s, c) implies s[i] != c by {
            if i > 0 {
                assert(t[i - 1] == s[i]);
            }
        }
    }
}

/// A place with `c` in it and none before is the first.
pub proof fn lemma_index_of_is(s: Seq<char>, c: char, at: int)
    requires
        0 <= at <= s.len(),
        at < s.len() ==> s[at] == c,
        forall|i: int| 0 <= i < at ==> s[i] != c,
    ensures
        index_of(s, c) == at,
{
    lemma_index_of(s, c);
    let found = index_of(s, c);
    if found < at {
        assert(s[found] != c);
    }
    if at < found {
        assert(s[at] != c);
    }
}

// ---- What holds of it ----

/// Whether `what` stands in `s` from `at` on, `n` times, each right after the one before.
pub open spec fn stacked(s: Seq<char>, at: int, what: Seq<char>, n: nat) -> bool {
    &&& 0 <= at && at + n * what.len() <= s.len()
    &&& forall|k: int, j: int|
        0 <= k < n && 0 <= j < what.len() ==> #[trigger] s[at + k * what.len() + j] == what[j]
}

/// A text over and over is as many copies of it, one after another, and nothing more.
pub proof fn law_repeat_is_copies(before: Seq<char>, s: Seq<char>, n: nat, after: Seq<char>)
    ensures
        repeat(s, n).len() == n * s.len(),
        stacked(before + repeat(s, n) + after, before.len() as int, s, n),
    decreases n,
{
    let whole = before + repeat(s, n) + after;
    let m = s.len() as int;
    if n > 0 {
        let less = (n - 1) as nat;
        law_repeat_is_copies(before, s, less, s + after);
        let shorter = before + repeat(s, less) + (s + after);
        assert(shorter =~= whole);
        assert(n * m == less * m + m) by (nonlinear_arith)
            requires
                n == less + 1,
        ;
        assert forall|k: int, j: int| 0 <= k < n && 0 <= j < m implies #[trigger] whole[before.len()
            + k * m + j] == s[j] by {
            if k < less {
                assert(shorter[before.len() + k * m + j] == s[j]);
            } else {
                assert(k == less);
                assert(whole[before.len() + less * m + j] == (s + after)[j]);
            }
        }
    } else {
        assert(0 * m == 0) by (nonlinear_arith);
    }
}

/// Trimming cuts white space off either end, all of it, and nothing else.
pub proof fn law_trim_cuts_the_white_space_around(before: Seq<char>, s: Seq<char>, after: Seq<char>)
    requires
        all_space(before),
        all_space(after),
        s.len() > 0 ==> !is_space(s[0]) && !is_space(s.last()),
    ensures
        trim(before + s + after) == s,
        trim_end(s + after) == s,
        trim_start(before + s) == s,
{
    lemma_trim_around(before, s, after);
    assert(trim_start(s) =~= s);
    assert(trim_end(s) =~= s);
    lemma_trim_end_skips(s, after);
    if s.len() > 0 {
        lemma_trim_start_skips(before, s);
    } else {
        assert(before + s =~= before);
        lemma_trim_start(before);
        let t = trim_start(before);
        if t.len() > 0 {
            assert(t[0] == before[before.len() - t.len()]);
        }
        assert(t =~= s);
    }
}

/// The white space of Unicode: the ASCII controls and the space, the two of Latin, and the
/// spaces and separators of general punctuation.
pub proof fn law_white_space(c: char)
    ensures
        c == ' ' || c == '\t' || c == '\n' || c == '\r' || c == '\u{b}' || c == '\u{c}' ==> is_space(c),
        c == '\u{85}' || c == '\u{a0}' || c == '\u{2003}' || c == '\u{2028}' || c == '\u{3000}'
            ==> is_space(c),
        '!' <= c <= '~' ==> !is_space(c),
        c as u32 > 0x3000 ==> !is_space(c),
{
}

} // verus!
