//! Paths, as text whose parts are kept apart by `/`.
//!
//! Two spellings are one path when they have the same parts: a doubled or trailing `/` and a
//! `.` after the start make no difference. A path that starts with `/` has that as its first
//! part, one that starts with `.` keeps it, and `..` is a part like any other.

use vstd::prelude::*;
use vstd::string::*;

use crate::split;
use crate::text::{self, chars_of, part, place_of, string_of};

verus! {

// ---- The parts of a path ----

/// Where the segment that starts at `at` ends.
pub open spec fn segment_end(s: Seq<char>, at: int) -> int {
    at + text::index_of(s.skip(at), '/')
}

/// Where the parts from `at` on stand: every segment but the empty ones and `.`.
pub open spec fn body(s: Seq<char>, at: int) -> Seq<(int, int)>
    decreases s.len() - at,
    via body_decreases
{
    if at < 0 || at >= s.len() {
        Seq::empty()
    } else if s[at] == '/' {
        body(s, at + 1)
    } else {
        let end = segment_end(s, at);
        if end == at + 1 && s[at] == '.' {
            body(s, end)
        } else {
            seq![(at, end)] + body(s, end)
        }
    }
}

#[via_fn]
proof fn body_decreases(s: Seq<char>, at: int) {
    if 0 <= at < s.len() {
        lemma_segment(s, at);
    }
}

/// Where a segment ends: after it starts, and before the path does.
proof fn lemma_segment(s: Seq<char>, at: int)
    requires
        0 <= at < s.len(),
    ensures
        at <= segment_end(s, at) <= s.len(),
        s[at] != '/' ==> at < segment_end(s, at),
        segment_end(s, at) < s.len() ==> s[segment_end(s, at)] == '/',
        forall|i: int| at <= i < segment_end(s, at) ==> s[i] != '/',
{
    let t = s.skip(at);
    text::lemma_index_of(t, '/');
    assert(t[0] == s[at]);
    let n = text::index_of(t, '/');
    if n < t.len() {
        assert(t[n] == s[at + n]);
    }
    assert forall|i: int| at <= i < at + n implies s[i] != '/' by {
        assert(t[i - at] == s[i]);
    }
}

/// Whether a path starts with `/`.
pub open spec fn absolute(s: Seq<char>) -> bool {
    s.len() > 0 && s[0] == '/'
}

/// Whether a path starts with the part `.`.
pub open spec fn starts_here(s: Seq<char>) -> bool {
    s.len() > 0 && s[0] == '.' && (s.len() == 1 || s[1] == '/')
}

/// Where each part of a path stands in it.
pub open spec fn spans(s: Seq<char>) -> Seq<(int, int)> {
    if absolute(s) || starts_here(s) {
        seq![(0int, 1int)] + body(s, 1)
    } else {
        body(s, 0)
    }
}

/// The stretches of a text.
pub open spec fn stretches(s: Seq<char>, at: Seq<(int, int)>) -> Seq<Seq<char>> {
    at.map_values(|span: (int, int)| s.subrange(span.0, span.1))
}

/// The parts of a path.
pub open spec fn components(s: Seq<char>) -> Seq<Seq<char>> {
    stretches(s, spans(s))
}

/// Whether two spellings are one path.
pub open spec fn equal(a: Seq<char>, b: Seq<char>) -> bool {
    components(a) == components(b)
}

/// Whether `path` lies at or below `base`.
pub open spec fn below(path: Seq<char>, base: Seq<char>) -> bool {
    components(base).is_prefix_of(components(path))
}

/// `path` as it is spelled below `base`; nothing when it does not lie there.
pub open spec fn stripped(path: Seq<char>, base: Seq<char>) -> Option<Seq<char>> {
    let k = components(base).len() as int;
    let n = spans(path).len() as int;
    if !below(path, base) {
        None
    } else if k == n {
        Some(Seq::empty())
    } else {
        Some(path.subrange(spans(path)[k].0, spans(path)[n - 1].1))
    }
}

/// The path without its last part; nothing for an empty path or `/`.
pub open spec fn up(path: Seq<char>) -> Option<Seq<char>> {
    let n = spans(path).len() as int;
    if n == 0 || (n == 1 && absolute(path)) {
        None
    } else if n == 1 {
        Some(Seq::empty())
    } else {
        Some(path.take(spans(path)[n - 2].1))
    }
}

/// The last part of a path, when it is a name.
pub open spec fn name_of(path: Seq<char>) -> Option<Seq<char>> {
    let parts = components(path);
    if parts.len() == 0 || parts.last() == seq!['/'] || parts.last() == seq!['.'] || parts.last()
        == seq!['.', '.'] {
        None
    } else {
        Some(parts.last())
    }
}

/// `more` taken from `base` on: after it, with a `/` between where it ends in none, or in its
/// place when it is absolute.
pub open spec fn joined(base: Seq<char>, more: Seq<char>) -> Seq<char> {
    if absolute(more) {
        more
    } else if base.len() > 0 && base.last() != '/' {
        base.push('/') + more
    } else {
        base + more
    }
}

/// The ends of several stretches.
pub open spec fn ends(list: Seq<(usize, usize)>) -> Seq<(int, int)> {
    list.map_values(|span: (usize, usize)| (span.0 as int, span.1 as int))
}

/// Every part stands inside the path, after the one before it.
proof fn lemma_body(s: Seq<char>, at: int)
    requires
        0 <= at <= s.len(),
    ensures
        forall|i: int|
            0 <= i < body(s, at).len() ==> at <= (#[trigger] body(s, at)[i]).0 < body(s, at)[i].1
                <= s.len(),
        forall|i: int, j: int|
            0 <= i < j < body(s, at).len() ==> (#[trigger] body(s, at)[i]).1 <= (
            #[trigger] body(s, at)[j]).0,
        forall|i: int|
            0 <= i < body(s, at).len() ==> s[(#[trigger] body(s, at)[i]).0] != '/',
    decreases s.len() - at,
{
    let all = body(s, at);
    if at < s.len() && s[at] == '/' {
        lemma_body(s, at + 1);
        assert(all == body(s, at + 1));
    } else if at < s.len() {
        lemma_segment(s, at);
        let end = segment_end(s, at);
        let rest = body(s, end);
        lemma_body(s, end);
        if end == at + 1 && s[at] == '.' {
            assert(all == rest);
        } else {
            assert(all == seq![(at, end)] + rest);
            assert forall|i: int| 0 <= i < all.len() implies at <= (#[trigger] all[i]).0
                < all[i].1 <= s.len() && s[all[i].0] != '/' by {
                if i > 0 {
                    assert(all[i] == rest[i - 1]);
                }
            }
            assert forall|i: int, j: int| 0 <= i < j < all.len() implies (
            #[trigger] all[i]).1 <= (#[trigger] all[j]).0 by {
                assert(all[j] == rest[j - 1]);
                if i > 0 {
                    assert(all[i] == rest[i - 1]);
                }
            }
        }
    }
}

/// Every part of a path stands inside it, after the one before it.
pub proof fn lemma_spans(s: Seq<char>)
    ensures
        forall|i: int|
            0 <= i < spans(s).len() ==> 0 <= (#[trigger] spans(s)[i]).0 < spans(s)[i].1 <= s.len(),
        forall|i: int, j: int|
            0 <= i < j < spans(s).len() ==> (#[trigger] spans(s)[i]).1 <= (#[trigger] spans(
                s,
            )[j]).0,
        components(s).len() == spans(s).len(),
{
    if absolute(s) || starts_here(s) {
        lemma_body(s, 1);
    } else {
        lemma_body(s, 0);
    }
}

/// Where each part of a path stands in it.
fn find_spans(s: &Vec<char>) -> (list: Vec<(usize, usize)>)
    ensures
        ends(list@) == spans(s@),
        list.len() == spans(s@).len(),
        forall|i: int|
            0 <= i < list.len() ==> (#[trigger] list@[i]).0 < list@[i].1 <= s.len() && (list@[i].0
                as int, list@[i].1 as int) == spans(s@)[i],
{
    let mut list: Vec<(usize, usize)> = Vec::new();
    let mut at: usize = 0;
    if s.len() > 0 && (s[0] == '/' || (s[0] == '.' && (s.len() == 1 || s[1] == '/'))) {
        list.push((0, 1));
        at = 1;
    }
    assert(ends(list@) + body(s@, at as int) =~= spans(s@));
    while at < s.len()
        invariant
            at <= s.len(),
            ends(list@) + body(s@, at as int) == spans(s@),
        decreases s.len() - at,
    {
        if s[at] == '/' {
            at += 1;
        } else {
            proof {
                lemma_segment(s@, at as int);
            }
            let end = place_of(s, '/', at);
            let ghost held = list@;
            if !(end == at + 1 && s[at] == '.') {
                list.push((at, end));
                assert(ends(list@) + body(s@, end as int) =~= ends(held) + (seq![
                    (at as int, end as int),
                ] + body(s@, end as int)));
            }
            at = end;
        }
    }
    assert(ends(list@) + body(s@, at as int) =~= ends(list@));
    proof {
        lemma_spans(s@);
        assert forall|i: int| 0 <= i < list.len() implies (#[trigger] list@[i]).0 < list@[i].1
            <= s.len() && (list@[i].0 as int, list@[i].1 as int) == spans(s@)[i] by {
            assert(ends(list@)[i] == spans(s@)[i]);
        }
    }
    list
}

/// The parts of a path.
pub fn components_of(path: &str) -> (parts: Vec<String>)
    ensures
        text::views(parts@) == components(path@),
{
    let s = chars_of(path);
    let list = find_spans(&s);
    let mut parts: Vec<String> = Vec::new();
    for i in 0..list.len()
        invariant
            list.len() == spans(s@).len(),
            forall|j: int|
                0 <= j < list.len() ==> (#[trigger] list@[j]).0 < list@[j].1 <= s.len() && (
                list@[j].0 as int, list@[j].1 as int) == spans(s@)[j],
            text::views(parts@) == components(s@).take(i as int),
    {
        let ghost held = parts@;
        let name = string_of(&part(&s, list[i].0, list[i].1));
        parts.push(name);
        assert(name@ == components(s@)[i as int]);
        assert(text::views(parts@) =~= text::views(held).push(name@));
    }
    assert(components(s@).take(list.len() as int) =~= components(s@));
    parts
}

/// Whether the first texts of `all` are `some`.
fn prefixed(all: &Vec<String>, some: &Vec<String>) -> (yes: bool)
    ensures
        yes == text::views(some@).is_prefix_of(text::views(all@)),
{
    if some.len() > all.len() {
        return false;
    }
    for i in 0..some.len()
        invariant
            some.len() <= all.len(),
            forall|j: int| 0 <= j < i ==> text::views(some@)[j] == text::views(all@)[j],
    {
        if !text::same(some[i].as_str(), all[i].as_str()) {
            assert(text::views(some@)[i as int] != text::views(all@)[i as int]);
            assert(text::views(all@).take(some@.len() as int)[i as int] == text::views(
                all@,
            )[i as int]);
            return false;
        }
    }
    assert(text::views(all@).subrange(0, some@.len() as int) =~= text::views(some@));
    true
}

/// Whether two spellings are one path.
pub fn same(a: &str, b: &str) -> (yes: bool)
    ensures
        yes == equal(a@, b@),
{
    let a = components_of(a);
    let b = components_of(b);
    let yes = a.len() == b.len() && prefixed(&a, &b);
    proof {
        assert(text::views(a@).len() == a.len());
        assert(text::views(b@).len() == b.len());
        if yes {
            assert(text::views(a@) =~= text::views(b@));
        }
    }
    yes
}

/// Whether `path` lies at or below `base`.
pub fn starts_with(path: &str, base: &str) -> (yes: bool)
    ensures
        yes == below(path@, base@),
{
    prefixed(&components_of(path), &components_of(base))
}

/// Whether a path starts with `/`.
pub fn is_absolute(path: &str) -> (yes: bool)
    ensures
        yes == absolute(path@),
{
    let s = chars_of(path);
    s.len() > 0 && s[0] == '/'
}

/// `path` as it is spelled below `base`; nothing when it does not lie there.
pub fn strip_prefix(path: &str, base: &str) -> (inside: Option<String>)
    ensures
        text::optional(inside) == stripped(path@, base@),
{
    if !starts_with(path, base) {
        return None;
    }
    let s = chars_of(path);
    let list = find_spans(&s);
    let k = components_of(base).len();
    proof {
        lemma_spans(path@);
        lemma_spans(base@);
        assert(components(base@).len() <= components(path@).len());
    }
    assert(k == components(base@).len()) by {
        assert(components(base@).len() == spans(base@).len());
    }
    if k == list.len() {
        return Some(String::new());
    }
    let last = list.len() - 1;
    assert(list@[k as int].0 <= list@[last as int].1) by {
        if k < last {
            assert(spans(s@)[k as int].1 <= spans(s@)[last as int].0);
        }
    }
    Some(string_of(&part(&s, list[k].0, list[last].1)))
}

/// The path without its last part; nothing for an empty path or `/`.
pub fn parent(path: &str) -> (above: Option<String>)
    ensures
        text::optional(above) == up(path@),
{
    let s = chars_of(path);
    let list = find_spans(&s);
    let n = list.len();
    if n == 0 || (n == 1 && s.len() > 0 && s[0] == '/') {
        return None;
    }
    if n == 1 {
        return Some(String::new());
    }
    let end = list[n - 2].1;
    assert(s@.take(end as int) =~= s@.subrange(0, end as int));
    Some(string_of(&part(&s, 0, end)))
}

/// The last part of a path, when it is a name.
pub fn file_name(path: &str) -> (name: Option<String>)
    ensures
        text::optional(name) == name_of(path@),
{
    let parts = components_of(path);
    let ghost list = components(path@);
    assert(list.len() == parts.len()) by {
        assert(text::views(parts@).len() == parts.len());
    }
    if parts.len() == 0 {
        return None;
    }
    let last = &parts[parts.len() - 1];
    assert(text::views(parts@)[parts@.len() - 1] == last@);
    let chars = chars_of(last.as_str());
    if chars.len() == 1 && (chars[0] == '/' || chars[0] == '.') {
        assert(chars@ =~= seq!['/'] || chars@ =~= seq!['.']);
        return None;
    }
    if chars.len() == 2 && chars[0] == '.' && chars[1] == '.' {
        assert(chars@ =~= seq!['.', '.']);
        return None;
    }
    proof {
        assert(seq!['/'][0] == '/' && seq!['.'][0] == '.');
        assert(seq!['.', '.'][0] == '.' && seq!['.', '.'][1] == '.');
    }
    Some(last.clone())
}

/// The path above another is shorter.
pub proof fn lemma_up(path: Seq<char>)
    ensures
        up(path) matches Some(dir) ==> dir.len() < path.len(),
{
    lemma_spans(path);
    let n = spans(path).len() as int;
    if n >= 2 {
        assert(spans(path)[n - 2].1 <= spans(path)[n - 1].0);
        assert(spans(path)[n - 1].0 < spans(path)[n - 1].1);
    } else if n == 1 {
        assert(spans(path)[0].0 < spans(path)[0].1);
    }
}

/// The directories above `path` up to `root`, which is left out; all of them when `root` is not
/// among them.
pub open spec fn ancestors(root: Seq<char>, path: Seq<char>) -> Seq<Seq<char>>
    decreases path.len(),
    via ancestors_decreases
{
    match up(path) {
        None => Seq::empty(),
        Some(dir) => if equal(dir, root) {
            Seq::empty()
        } else {
            seq![dir] + ancestors(root, dir)
        },
    }
}

#[via_fn]
proof fn ancestors_decreases(root: Seq<char>, path: Seq<char>) {
    lemma_up(path);
}

/// The directories above `path` up to `root`, which is left out.
pub fn ancestors_of(root: &str, path: &str) -> (dirs: Vec<String>)
    ensures
        text::views(dirs@) == ancestors(root@, path@),
{
    let mut dirs: Vec<String> = Vec::new();
    let mut dir = parent(path);
    let ghost mut at = path@;
    assert(text::views(dirs@) + ancestors(root@, at) =~= ancestors(root@, path@));
    loop
        invariant
            text::views(dirs@) + ancestors(root@, at) == ancestors(root@, path@),
            text::optional(dir) == up(at),
        decreases at.len(),
    {
        match dir {
            None => {
                assert(text::views(dirs@) + ancestors(root@, at) =~= text::views(dirs@));
                return dirs;
            },
            Some(current) => {
                proof {
                    lemma_up(at);
                }
                if same(current.as_str(), root) {
                    assert(text::views(dirs@) + ancestors(root@, at) =~= text::views(dirs@));
                    return dirs;
                }
                let ghost held = text::views(dirs@);
                dir = parent(current.as_str());
                proof {
                    assert(ancestors(root@, at) == seq![current@] + ancestors(root@, current@));
                    assert(held + (seq![current@] + ancestors(root@, current@)) =~= held.push(
                        current@,
                    ) + ancestors(root@, current@));
                    at = current@;
                }
                let ghost texts = dirs@;
                dirs.push(current);
                assert(text::views(dirs@) =~= text::views(texts).push(current@));
            },
        }
    }
}

/// `more` taken from `base` on.
pub fn join(base: &str, more: &str) -> (path: String)
    ensures
        path@ == joined(base@, more@),
{
    if is_absolute(more) {
        return more.to_owned();
    }
    let s = chars_of(base);
    let mut path = base.to_owned();
    if s.len() > 0 && s[s.len() - 1] != '/' {
        path.push('/');
    }
    path.append(more);
    path
}

// ---- How paths are put together ----

/// Whether a segment is a part of its own: it is neither empty nor `.`.
pub open spec fn counts(segment: Seq<char>) -> bool {
    segment.len() > 0 && segment != seq!['.']
}

/// The segments that are parts of their own.
pub open spec fn named(segments: Seq<Seq<char>>) -> Seq<Seq<char>>
    decreases segments.len(),
{
    if segments.len() == 0 {
        Seq::empty()
    } else {
        let rest = named(segments.skip(1));
        if counts(segments[0]) {
            seq![segments[0]] + rest
        } else {
            rest
        }
    }
}

/// The names a path is spelled with, but for a `/` or a `.` it starts with.
pub open spec fn names(s: Seq<char>) -> Seq<Seq<char>> {
    named(split::split(s, '/'))
}

/// The part before the names.
pub open spec fn lead(s: Seq<char>) -> Seq<Seq<char>> {
    if absolute(s) {
        seq![seq!['/']]
    } else if starts_here(s) {
        seq![seq!['.']]
    } else {
        Seq::empty()
    }
}

proof fn lemma_named_concat(a: Seq<Seq<char>>, b: Seq<Seq<char>>)
    ensures
        named(a + b) == named(a) + named(b),
    decreases a.len(),
{
    if a.len() == 0 {
        assert(a + b =~= b);
        assert(named(a) + named(b) =~= named(b));
    } else {
        assert((a + b).skip(1) =~= a.skip(1) + b);
        lemma_named_concat(a.skip(1), b);
        assert(named(a + b) =~= named(a) + named(b));
    }
}

proof fn lemma_named_one(segment: Seq<char>, rest: Seq<Seq<char>>)
    ensures
        named(seq![segment] + rest) == if counts(segment) {
            seq![segment] + named(rest)
        } else {
            named(rest)
        },
{
    assert((seq![segment] + rest).skip(1) =~= rest);
}

proof fn lemma_body_names(s: Seq<char>, at: int)
    requires
        0 <= at <= s.len(),
    ensures
        stretches(s, body(s, at)) == names(s.skip(at)),
    decreases s.len() - at,
{
    let rest = s.skip(at);
    if at == s.len() {
        lemma_named_one(Seq::empty(), Seq::empty());
        assert(seq![Seq::<char>::empty()] + Seq::<Seq<char>>::empty() =~= seq![
            Seq::<char>::empty(),
        ]);
        assert(stretches(s, body(s, at)) =~= Seq::empty());
    } else if s[at] == '/' {
        lemma_body_names(s, at + 1);
        assert(rest.skip(1) =~= s.skip(at + 1));
        lemma_named_one(Seq::empty(), split::split(s.skip(at + 1), '/'));
    } else {
        lemma_segment(s, at);
        let end = segment_end(s, at);
        let segment = s.subrange(at, end);
        lemma_body_names(s, end);
        if end == s.len() {
            assert(rest =~= segment);
            assert forall|i: int| 0 <= i < rest.len() implies rest[i] != '/' by {
                assert(rest[i] == s[at + i]);
            }
            split::lemma_split_none(rest, '/');
            assert(seq![segment] + Seq::<Seq<char>>::empty() =~= seq![segment]);
            lemma_named_one(segment, Seq::empty());
            assert(body(s, end) =~= Seq::empty());
        } else {
            let after = s.skip(end + 1);
            assert(rest =~= segment.push('/') + after);
            assert forall|i: int| 0 <= i < segment.len() implies segment[i] != '/' by {
                assert(segment[i] == s[at + i]);
            }
            split::lemma_split_concat(segment, '/', after);
            split::lemma_split_none(segment, '/');
            lemma_named_one(segment, split::split(after, '/'));
            assert(s.skip(end).skip(1) =~= after);
            assert(s.skip(end)[0] == '/');
            lemma_named_one(Seq::empty(), split::split(after, '/'));
        }
        if end == at + 1 && s[at] == '.' {
            assert(segment =~= seq!['.']);
        } else {
            assert(segment != seq!['.']) by {
                if segment == seq!['.'] {
                    assert(segment.len() == 1);
                    assert(segment[0] == s[at]);
                }
            }
            assert(stretches(s, body(s, at)) =~= seq![segment] + stretches(s, body(s, end)));
        }
    }
}

/// The parts of a path are what it starts with and its names.
pub proof fn lemma_components(s: Seq<char>)
    ensures
        components(s) == lead(s) + names(s),
{
    if absolute(s) {
        lemma_body_names(s, 1);
        lemma_named_one(Seq::empty(), split::split(s.skip(1), '/'));
        assert(s.subrange(0, 1) =~= seq!['/']);
        assert(components(s) =~= seq![seq!['/']] + names(s.skip(1)));
    } else if starts_here(s) {
        lemma_body_names(s, 1);
        assert(s.subrange(0, 1) =~= seq!['.']);
        let dot = seq!['.'];
        assert(components(s) =~= seq![dot] + names(s.skip(1)));
        if s.len() == 1 {
            assert(s =~= dot);
            split::lemma_split_none(s, '/');
            lemma_named_one(dot, Seq::empty());
            assert(seq![dot] + Seq::<Seq<char>>::empty() =~= seq![dot]);
            assert(s.skip(1) =~= Seq::empty());
            lemma_named_one(Seq::empty(), Seq::empty());
            assert(seq![Seq::<char>::empty()] + Seq::<Seq<char>>::empty() =~= seq![
                Seq::<char>::empty(),
            ]);
        } else {
            let after = s.skip(2);
            assert(s =~= dot.push('/') + after);
            split::lemma_split_concat(dot, '/', after);
            split::lemma_split_none(dot, '/');
            lemma_named_one(dot, split::split(after, '/'));
            assert(s.skip(1).skip(1) =~= after);
            lemma_named_one(Seq::empty(), split::split(after, '/'));
        }
    } else {
        lemma_body_names(s, 0);
        assert(s.skip(0) =~= s);
        assert(components(s) =~= lead(s) + names(s));
    }
}

/// A relative path joined to one that is not empty adds its names to that one's parts.
pub proof fn lemma_join(base: Seq<char>, more: Seq<char>)
    requires
        base.len() > 0,
        !absolute(more),
    ensures
        components(joined(base, more)) == components(base) + names(more),
{
    let all = joined(base, more);
    lemma_components(all);
    lemma_components(base);
    assert(all[0] == base[0]);
    if base.len() > 1 {
        assert(all[1] == base[1]);
    }
    assert(lead(all) == lead(base));
    if base.last() == '/' {
        let b = base.drop_last();
        assert(base =~= b.push('/') + Seq::empty());
        assert(all =~= b.push('/') + more);
        split::lemma_split_concat(b, '/', Seq::empty());
        split::lemma_split_concat(b, '/', more);
        lemma_named_concat(split::split(b, '/'), split::split(Seq::empty(), '/'));
        lemma_named_concat(split::split(b, '/'), split::split(more, '/'));
        lemma_named_one(Seq::empty(), Seq::empty());
        assert(seq![Seq::<char>::empty()] + Seq::<Seq<char>>::empty() =~= split::split(
            Seq::<char>::empty(),
            '/',
        ));
        assert(names(base) =~= named(split::split(b, '/')));
    } else {
        split::lemma_split_concat(base, '/', more);
        lemma_named_concat(split::split(base, '/'), split::split(more, '/'));
    }
    assert(components(all) =~= components(base) + names(more));
}

/// What is joined below a path lies below it.
pub proof fn law_join_lies_below(base: Seq<char>, more: Seq<char>)
    requires
        base.len() > 0,
        !absolute(more),
    ensures
        below(joined(base, more), base),
{
    lemma_join(base, more);
    assert(components(joined(base, more)).subrange(0, components(base).len() as int)
        =~= components(base));
}

/// From where a part stands, the path goes on with that part and those after it.
proof fn lemma_body_tail(s: Seq<char>, at: int, i: int)
    requires
        0 <= at <= s.len(),
        0 <= i < body(s, at).len(),
    ensures
        body(s, body(s, at)[i].0) == body(s, at).skip(i),
        body(s, body(s, at)[i].1) == body(s, at).skip(i + 1),
        at <= body(s, at)[i].0 < body(s, at)[i].1 <= s.len(),
        s[body(s, at)[i].0] != '/',
        s[body(s, at)[i].1 - 1] != '/',
        body(s, at)[i].1 < s.len() ==> s[body(s, at)[i].1] == '/',
    decreases s.len() - at,
{
    if s[at] == '/' {
        lemma_body_tail(s, at + 1, i);
    } else {
        lemma_segment(s, at);
        let end = segment_end(s, at);
        if end == at + 1 && s[at] == '.' {
            lemma_body_tail(s, end, i);
        } else if i == 0 {
            assert(body(s, at).skip(0) =~= body(s, at));
            assert(body(s, at).skip(1) =~= body(s, end));
        } else {
            lemma_body_tail(s, end, i - 1);
            assert(body(s, end)[i - 1] == body(s, at)[i]);
            assert(body(s, at).skip(i) =~= body(s, end).skip(i - 1));
            assert(body(s, at).skip(i + 1) =~= body(s, end).skip(i));
        }
    }
}

/// A path that is not empty has a part.
proof fn lemma_some_part(s: Seq<char>)
    requires
        s.len() > 0,
    ensures
        spans(s).len() > 0,
{
    if !absolute(s) && !starts_here(s) {
        lemma_segment(s, 0);
        let end = segment_end(s, 0);
        assert(end == 1 && s[0] == '.' ==> s.len() > 1 && s[1] == '/');
    }
}

/// The names of a part of a path, cut where its parts are, are those parts.
proof fn lemma_cut_names(s: Seq<char>, at: int, i: int)
    requires
        0 <= at <= s.len(),
        0 <= i < body(s, at).len(),
    ensures
        names(s.subrange(body(s, at)[i].0, body(s, at).last().1)) == stretches(
            s,
            body(s, at),
        ).skip(i),
        !absolute(s.subrange(body(s, at)[i].0, body(s, at).last().1)),
        s.subrange(body(s, at)[i].0, body(s, at).last().1).last() != '/',
{
    let all = body(s, at);
    let from = all[i].0;
    let to = all.last().1;
    lemma_body(s, at);
    lemma_body_tail(s, at, i);
    lemma_body_tail(s, at, all.len() - 1);
    lemma_body_names(s, from);
    lemma_body_names(s, to);
    assert(all.last() == all[all.len() - 1]);
    assert(from < to) by {
        if i < all.len() - 1 {
            assert(all[i].1 <= all[all.len() - 1].0);
        }
    }
    let cut = s.subrange(from, to);
    assert(cut[0] == s[from] && cut.last() == s[to - 1]);
    assert(stretches(s, all.skip(i)) =~= stretches(s, all).skip(i));
    assert(stretches(s, all.skip(all.len() as int)) =~= Seq::empty());
    if to == s.len() {
        assert(cut =~= s.skip(from));
    } else {
        let after = s.skip(to + 1);
        assert(s.skip(from) =~= cut.push('/') + after);
        split::lemma_split_concat(cut, '/', after);
        lemma_named_concat(split::split(cut, '/'), split::split(after, '/'));
        assert(s.skip(to) =~= Seq::<char>::empty().push('/') + after);
        split::lemma_split_concat(Seq::empty(), '/', after);
        split::lemma_split_none(Seq::<char>::empty(), '/');
        lemma_named_one(Seq::empty(), split::split(after, '/'));
        assert(names(cut) =~= names(s.skip(from)));
    }
}

/// A path taken apart from one above it and joined to it again is the same path.
pub proof fn law_stripped_joins_back(path: Seq<char>, base: Seq<char>)
    requires
        base.len() > 0,
        below(path, base),
    ensures
        stripped(path, base) matches Some(rest) && !absolute(rest) && equal(
            joined(base, rest),
            path,
        ) && names(rest) == components(path).skip(components(base).len() as int) && (rest.len() > 0
            ==> rest.last() != '/'),
{
    lemma_spans(path);
    lemma_spans(base);
    lemma_some_part(base);
    let rest = stripped(path, base)->0;
    let k = components(base).len() as int;
    let n = spans(path).len() as int;
    assert(components(base) =~= components(path).subrange(0, k));
    if k == n {
        split::lemma_split_none(Seq::<char>::empty(), '/');
        lemma_named_one(Seq::empty(), Seq::empty());
        assert(seq![Seq::<char>::empty()] + Seq::<Seq<char>>::empty() =~= seq![
            Seq::<char>::empty(),
        ]);
        assert(names(rest) =~= components(path).skip(k));
    } else {
        let lead: int = if absolute(path) || starts_here(path) {
            1
        } else {
            0
        };
        let all = body(path, lead);
        assert(all =~= spans(path).skip(lead));
        lemma_cut_names(path, lead, k - lead);
        assert(all[k - lead] == spans(path)[k]);
        assert(all.last() == spans(path)[n - 1]);
        assert(stretches(path, all).skip(k - lead) =~= components(path).skip(k));
    }
    lemma_join(base, rest);
    assert(components(joined(base, rest)) =~= components(path));
}

// ---- What the parts of a path are ----

proof fn lemma_no_names()
    ensures
        names(Seq::empty()) == Seq::<Seq<char>>::empty(),
{
    split::lemma_split_none(Seq::<char>::empty(), '/');
    lemma_named_one(Seq::empty(), Seq::empty());
    assert(seq![Seq::<char>::empty()] + Seq::<Seq<char>>::empty() =~= seq![Seq::<char>::empty()]);
}

proof fn lemma_one_name(name: Seq<char>)
    requires
        forall|i: int| 0 <= i < name.len() ==> name[i] != '/',
    ensures
        names(name) == if counts(name) {
            seq![name]
        } else {
            Seq::empty()
        },
{
    split::lemma_split_none(name, '/');
    lemma_named_one(name, Seq::empty());
    assert(seq![name] + Seq::<Seq<char>>::empty() =~= seq![name]);
}

proof fn lemma_names_concat(a: Seq<char>, b: Seq<char>)
    ensures
        names(a.push('/') + b) == names(a) + names(b),
{
    split::lemma_split_concat(a, '/', b);
    lemma_named_concat(split::split(a, '/'), split::split(b, '/'));
}

/// What is between two `/` is a part after those before it, unless it is empty or a `.`; a `/`
/// more makes no difference.
pub proof fn law_a_name_is_a_part(base: Seq<char>, name: Seq<char>)
    requires
        base.len() > 0,
        forall|i: int| 0 <= i < name.len() ==> name[i] != '/',
    ensures
        name.len() > 0 && name != seq!['.'] ==> components(base + seq!['/'] + name) == components(
            base,
        ).push(name),
        components(base + seq!['/']) == components(base),
        components(base + seq!['/', '.']) == components(base),
        components(base + seq!['/', '/'] + name) == components(base + seq!['/'] + name),
        name.len() > 0 ==> components(name) == seq![name],
        components(seq!['/'] + name) == if name.len() > 0 && name != seq!['.'] {
            seq![seq!['/'], name]
        } else {
            seq![seq!['/']]
        },
        components(Seq::empty()) == Seq::<Seq<char>>::empty(),
{
    let slash = seq!['/'];
    let none = Seq::<char>::empty();
    let dot = seq!['.'];
    lemma_components(base);
    lemma_no_names();
    lemma_one_name(name);
    lemma_one_name(dot);
    let a = base + slash + name;
    assert(a =~= base.push('/') + name);
    lemma_names_concat(base, name);
    lemma_components(a);
    lemma_same_lead(base, seq!['/'] + name);
    assert(base + (seq!['/'] + name) =~= a);
    let b = base + slash;
    assert(b =~= base.push('/') + none);
    lemma_names_concat(base, none);
    lemma_components(b);
    lemma_same_lead(base, slash);
    let c = base + seq!['/', '.'];
    assert(c =~= base.push('/') + dot);
    lemma_names_concat(base, dot);
    lemma_components(c);
    lemma_same_lead(base, seq!['/', '.']);
    let d = base + seq!['/', '/'] + name;
    assert(d =~= base.push('/').push('/') + name);
    assert(base.push('/') =~= base.push('/') + none);
    lemma_names_concat(base.push('/'), name);
    lemma_components(d);
    lemma_same_lead(base, seq!['/', '/'] + name);
    assert(base + (seq!['/', '/'] + name) =~= d);
    if name.len() > 0 && name != dot {
        assert(components(a) =~= components(base).push(name));
    }
    assert(components(b) =~= components(base));
    assert(components(c) =~= components(base));
    assert(components(d) =~= components(a));
    lemma_components(name);
    if name.len() > 0 {
        assert(name[0] != '/');
        assert(starts_here(name) ==> name =~= dot) by {
            if starts_here(name) && name.len() > 1 {
                assert(name[1] != '/');
            }
        }
        assert(components(name) =~= seq![name]);
    }
    let e = slash + name;
    lemma_components(e);
    assert(e =~= none.push('/') + name);
    lemma_names_concat(none, name);
    assert(absolute(e));
    assert(lead(e) =~= seq![slash]);
    assert(components(e) =~= if name.len() > 0 && name != dot {
        seq![slash, name]
    } else {
        seq![slash]
    });
    lemma_components(none);
    assert(lead(none) =~= Seq::empty());
    assert(components(none) =~= Seq::empty());
}

/// What a path starts with does not change with a `/` and more after it.
proof fn lemma_same_lead(base: Seq<char>, more: Seq<char>)
    requires
        base.len() > 0,
        more.len() > 0,
        more[0] == '/',
    ensures
        lead(base + more) == lead(base),
{
    let all = base + more;
    assert(all[0] == base[0]);
    if base.len() > 1 {
        assert(all[1] == base[1]);
    } else {
        assert(all[1] == '/');
    }
}

/// A path cut after one of its parts has the parts up to that one.
proof fn lemma_cut_after(s: Seq<char>, k: int)
    requires
        0 <= k < spans(s).len(),
    ensures
        components(s.take(spans(s)[k].1)) == components(s).take(k + 1),
{
    let from: int = if absolute(s) || starts_here(s) {
        1
    } else {
        0
    };
    let all = body(s, from);
    let end = spans(s)[k].1;
    let t = s.take(end);
    lemma_spans(s);
    lemma_components(s);
    lemma_components(t);
    lemma_body_names(s, from);
    assert(t[0] == s[0]);
    if k < from {
        assert(t =~= seq![s[0]]);
        lemma_no_names();
        if absolute(s) {
            assert(t =~= Seq::<char>::empty().push('/') + Seq::empty());
            lemma_names_concat(Seq::empty(), Seq::empty());
        } else {
            lemma_one_name(t);
        }
        assert(lead(t) =~= lead(s));
        assert(components(t) =~= components(s).take(1));
    } else {
        let i = k - from;
        assert(all[i] == spans(s)[k]);
        lemma_body_tail(s, from, i);
        lemma_body_names(s, end);
        assert(components(s) =~= lead(s) + stretches(s, all));
        let tail = s.skip(end);
        assert(stretches(s, all.skip(i + 1)) =~= stretches(s, all).skip(i + 1));
        let body_text = s.subrange(from, end);
        // The names of the whole are those before the cut and those after it.
        if end < s.len() {
            let after = s.skip(end + 1);
            assert(s.skip(from) =~= body_text.push('/') + after);
            lemma_names_concat(body_text, after);
            assert(tail =~= Seq::<char>::empty().push('/') + after);
            lemma_names_concat(Seq::empty(), after);
            lemma_no_names();
            assert(names(tail) =~= names(after));
        } else {
            assert(s.skip(from) =~= body_text);
            assert(tail =~= Seq::empty());
            lemma_no_names();
            assert(names(body_text) + names(tail) =~= names(body_text));
        }
        assert(names(s.skip(from)) == names(body_text) + names(tail));
        assert(names(body_text) =~= stretches(s, all).take(i + 1)) by {
            let whole = stretches(s, all);
            assert(whole == names(body_text) + whole.skip(i + 1));
            assert(names(body_text).len() == i + 1);
            assert(whole.take(i + 1) =~= (names(body_text) + whole.skip(i + 1)).take(i + 1));
        }
        if from == 1 {
            // A lead and a `/`, or the lead is the `/`.
            if absolute(s) {
                assert(t =~= Seq::<char>::empty().push('/') + body_text);
                lemma_names_concat(Seq::empty(), body_text);
                lemma_no_names();
                assert(names(t) =~= names(body_text));
            } else {
                assert(s.len() > 1 && s[1] == '/');
                let past = s.subrange(2, end);
                assert(t =~= seq!['.'].push('/') + past);
                lemma_names_concat(seq!['.'], past);
                lemma_one_name(seq!['.']);
                assert(body_text =~= Seq::<char>::empty().push('/') + past);
                lemma_names_concat(Seq::empty(), past);
                lemma_no_names();
                assert(names(t) =~= names(past));
                assert(names(body_text) =~= names(past));
                assert(t[1] == '/');
            }
        } else {
            assert(t =~= body_text);
            if t.len() > 1 {
                assert(t[1] == s[1]);
            } else {
                lemma_segment(s, 0);
                assert(s.len() > 1 ==> s[1] == '/');
            }
        }
        assert(lead(t) =~= lead(s));
        assert(components(t) =~= components(s).take(k + 1));
    }
}

/// The path above another has all of its parts but the last; there is none above one without
/// parts, and none above `/`.
pub proof fn law_the_path_above_lacks_the_last_part(path: Seq<char>)
    ensures
        up(path) is None <==> components(path).len() == 0 || components(path) == seq![seq!['/']],
        up(path) matches Some(dir) ==> components(dir) == components(path).drop_last(),
{
    let n = spans(path).len() as int;
    lemma_spans(path);
    lemma_components(path);
    lemma_no_names();
    if n >= 2 {
        lemma_cut_after(path, n - 2);
        assert(components(path).take(n - 1) =~= components(path).drop_last());
    } else if n == 1 {
        let none = Seq::<char>::empty();
        lemma_components(none);
        assert(lead(none) =~= Seq::empty());
        assert(components(none) =~= components(path).drop_last());
        if absolute(path) {
            assert(spans(path)[0] == (0int, 1int));
            assert(path.subrange(0, 1) =~= seq!['/']);
            assert(components(path) =~= seq![seq!['/']]);
        } else if components(path) == seq![seq!['/']] {
            assert(components(path)[0] == seq!['/']);
            let (from, to) = spans(path)[0];
            assert(path.subrange(from, to)[0] == path[from]);
            assert(seq!['/'][0] == '/');
            if starts_here(path) {
                assert(from == 0);
            } else {
                lemma_body(path, 0);
            }
            assert(false);
        }
    }
}

/// What is joined to a path under a name goes by that name, and lies right below it.
pub proof fn law_a_child_goes_by_its_name(base: Seq<char>, name: Seq<char>)
    requires
        base.len() > 0,
        name.len() > 0,
        name != seq!['.'],
        name != seq!['.', '.'],
        forall|i: int| 0 <= i < name.len() ==> name[i] != '/',
    ensures
        components(joined(base, name)) == components(base).push(name),
        name_of(joined(base, name)) == Some(name),
        up(joined(base, name)) matches Some(dir) && equal(dir, base),
        stripped(joined(base, name), base) == Some(name),
{
    let all = joined(base, name);
    assert(name[0] != '/');
    lemma_join(base, name);
    lemma_one_name(name);
    assert(components(all) =~= components(base).push(name));
    assert(name != seq!['/']) by {
        if name == seq!['/'] {
            assert(seq!['/'][0] == '/');
        }
    }
    assert(components(all).last() == name);
    lemma_some_part(base);
    lemma_spans(base);
    assert(components(all).len() > 1);
    law_the_path_above_lacks_the_last_part(all);
    assert(components(all).drop_last() =~= components(base));
    assert(components(base).is_prefix_of(components(all))) by {
        assert(components(all).subrange(0, components(base).len() as int) =~= components(base));
    }
    lemma_spans(all);
}

/// The last part of a path is its name, unless it is `/`, `.` or `..`.
pub proof fn law_the_name_is_the_last_part(path: Seq<char>)
    ensures
        match name_of(path) {
            Some(name) => components(path).len() > 0 && components(path)[components(path).len() - 1]
                == name && name != seq!['/'] && name != seq!['.'] && name != seq!['.', '.'],
            None => components(path).len() == 0 || components(path).last() == seq!['/']
                || components(path).last() == seq!['.'] || components(path).last() == seq!['.', '.'],
        },
{
}

/// The directories above a path come one part shorter each, none of them the root; after the
/// last comes the root, or nothing.
pub proof fn law_the_way_up_is_part_by_part(root: Seq<char>, path: Seq<char>)
    ensures
        ({
            let dirs = ancestors(root, path);
            let last = if dirs.len() == 0 {
                path
            } else {
                dirs.last()
            };
            &&& dirs.len() <= components(path).len()
            &&& forall|i: int|
                0 <= i < dirs.len() ==> components(#[trigger] dirs[i]) == components(path).take(
                    components(path).len() - 1 - i,
                ) && components(dirs[i]) != components(root)
            &&& up(last) matches Some(next) ==> components(next) == components(root)
        }),
    decreases path.len(),
{
    let dirs = ancestors(root, path);
    let n = components(path).len() as int;
    lemma_up(path);
    law_the_path_above_lacks_the_last_part(path);
    if let Some(dir) = up(path) {
        if !equal(dir, root) {
            law_the_way_up_is_part_by_part(root, dir);
            let more = ancestors(root, dir);
            assert forall|i: int| 0 <= i < dirs.len() implies components(#[trigger] dirs[i])
                == components(path).take(n - 1 - i) && components(dirs[i]) != components(root) by {
                if i == 0 {
                    assert(components(path).drop_last() =~= components(path).take(n - 1));
                } else {
                    assert(dirs[i] == more[i - 1]);
                    assert(components(dir).take(n - 1 - 1 - (i - 1)) =~= components(path).take(
                        n - 1 - i,
                    ));
                }
            }
            if more.len() > 0 {
                assert(dirs.last() == more.last());
            } else {
                assert(dirs.last() == dir);
            }
        }
    }
}

/// A path that is not empty has a part.
pub proof fn law_every_path_has_a_part(path: Seq<char>)
    requires
        path.len() > 0,
    ensures
        components(path).len() > 0,
{
    lemma_some_part(path);
    lemma_spans(path);
}

} // verus!
