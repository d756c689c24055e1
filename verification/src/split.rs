//! Cutting a text or a run of bytes at a separator.

use vstd::prelude::*;

use crate::text::{self, part, place_of};

verus! {

/// `head` put before the first of several runs.
pub open spec fn before_first<T>(head: Seq<T>, runs: Seq<Seq<T>>) -> Seq<Seq<T>> {
    runs.update(0, head + runs[0])
}

/// The runs between separators, in order: one more than there are separators.
pub open spec fn split<T>(s: Seq<T>, separator: T) -> Seq<Seq<T>>
    decreases s.len(),
{
    if s.len() == 0 {
        seq![Seq::empty()]
    } else if s[0] == separator {
        seq![Seq::<T>::empty()] + split(s.skip(1), separator)
    } else {
        before_first(seq![s[0]], split(s.skip(1), separator))
    }
}

/// There is always a first run.
pub proof fn lemma_split_some<T>(s: Seq<T>, separator: T)
    ensures
        split(s, separator).len() > 0,
    decreases s.len(),
{
    if s.len() > 0 {
        lemma_split_some(s.skip(1), separator);
    }
}

/// What is put together around a separator comes apart at it.
pub proof fn lemma_split_concat<T>(a: Seq<T>, separator: T, b: Seq<T>)
    ensures
        split(a.push(separator) + b, separator) == split(a, separator) + split(b, separator),
    decreases a.len(),
{
    let all = a.push(separator) + b;
    if a.len() == 0 {
        assert(all[0] == separator);
        assert(all.skip(1) =~= b);
    } else {
        let rest = a.skip(1);
        assert(all[0] == a[0]);
        assert(all.skip(1) =~= rest.push(separator) + b);
        lemma_split_concat(rest, separator, b);
        lemma_split_some(rest, separator);
        assert(split(all, separator) =~= split(a, separator) + split(b, separator));
    }
}

/// A run without a separator in it is all there is.
pub proof fn lemma_split_none<T>(s: Seq<T>, separator: T)
    requires
        forall|i: int| 0 <= i < s.len() ==> s[i] != separator,
    ensures
        split(s, separator) == seq![s],
    decreases s.len(),
{
    if s.len() > 0 {
        let rest = s.skip(1);
        assert forall|i: int| 0 <= i < rest.len() implies rest[i] != separator by {
            assert(rest[i] == s[i + 1]);
        }
        lemma_split_none(rest, separator);
        assert(seq![s[0]] + rest =~= s);
        assert(split(s, separator) =~= seq![s]);
    } else {
        assert(s =~= Seq::empty());
    }
}

/// The runs of bytes several vectors are.
pub open spec fn runs(lists: Seq<Vec<u8>>) -> Seq<Seq<u8>> {
    lists.map_values(|list: Vec<u8>| list@)
}

/// The runs of bytes between separators.
pub fn split_bytes(s: &[u8], separator: u8) -> (lists: Vec<Vec<u8>>)
    ensures
        runs(lists@) == split(s@, separator),
{
    let mut lists: Vec<Vec<u8>> = Vec::new();
    let mut current: Vec<u8> = Vec::new();
    assert(s@.skip(0) == s@);
    proof {
        lemma_split_some(s@, separator);
        assert(runs(lists@) + before_first(current@, split(s@, separator)) =~= split(
            s@,
            separator,
        ));
    }
    for i in 0..s.len()
        invariant
            runs(lists@) + before_first(current@, split(s@.skip(i as int), separator)) == split(
                s@,
                separator,
            ),
    {
        let ghost rest = s@.skip(i as int);
        let ghost held = lists@;
        let ghost before = current@;
        assert(rest.skip(1) =~= s@.skip(i + 1));
        proof {
            lemma_split_some(rest.skip(1), separator);
        }
        if s[i] == separator {
            lists.push(current);
            current = Vec::new();
            assert(runs(lists@) =~= runs(held).push(before));
            assert(before + Seq::<u8>::empty() =~= before);
            assert(current@ + split(rest.skip(1), separator)[0] =~= split(
                rest.skip(1),
                separator,
            )[0]);
        } else {
            current.push(s[i]);
            assert(current@ + split(rest.skip(1), separator)[0] =~= before + (seq![rest[0]] + split(
                rest.skip(1),
                separator,
            )[0]));
        }
        assert(runs(lists@) + before_first(current@, split(s@.skip(i + 1), separator)) =~= runs(
            held,
        ) + before_first(before, split(rest, separator)));
    }
    assert(s@.skip(s@.len() as int) =~= Seq::empty());
    let ghost held = lists@;
    let ghost last = current@;
    lists.push(current);
    assert(runs(lists@) =~= runs(held) + before_first(last, split(Seq::<u8>::empty(), separator)));
    lists
}

/// The runs of characters several vectors are.
pub open spec fn texts(lists: Seq<Vec<char>>) -> Seq<Seq<char>> {
    lists.map_values(|list: Vec<char>| list@)
}

/// The runs of characters between separators.
pub fn split_chars(s: &Vec<char>, separator: char) -> (lists: Vec<Vec<char>>)
    ensures
        texts(lists@) == split(s@, separator),
{
    let mut lists: Vec<Vec<char>> = Vec::new();
    let mut current: Vec<char> = Vec::new();
    assert(s@.skip(0) == s@);
    proof {
        lemma_split_some(s@, separator);
        assert(texts(lists@) + before_first(current@, split(s@, separator)) =~= split(
            s@,
            separator,
        ));
    }
    for i in 0..s.len()
        invariant
            texts(lists@) + before_first(current@, split(s@.skip(i as int), separator)) == split(
                s@,
                separator,
            ),
    {
        let ghost rest = s@.skip(i as int);
        let ghost held = lists@;
        let ghost before = current@;
        assert(rest.skip(1) =~= s@.skip(i + 1));
        proof {
            lemma_split_some(rest.skip(1), separator);
        }
        if s[i] == separator {
            lists.push(current);
            current = Vec::new();
            assert(texts(lists@) =~= texts(held).push(before));
            assert(before + Seq::<char>::empty() =~= before);
            assert(current@ + split(rest.skip(1), separator)[0] =~= split(
                rest.skip(1),
                separator,
            )[0]);
        } else {
            current.push(s[i]);
            assert(current@ + split(rest.skip(1), separator)[0] =~= before + (seq![rest[0]] + split(
                rest.skip(1),
                separator,
            )[0]));
        }
        assert(texts(lists@) + before_first(current@, split(s@.skip(i + 1), separator)) =~= texts(
            held,
        ) + before_first(before, split(rest, separator)));
    }
    assert(s@.skip(s@.len() as int) =~= Seq::empty());
    let ghost held = lists@;
    let ghost last = current@;
    lists.push(current);
    assert(texts(lists@) =~= texts(held) + before_first(
        last,
        split(Seq::<char>::empty(), separator),
    ));
    lists
}

/// A line without the carriage return it ends with.
pub open spec fn without_return(line: Seq<char>) -> Seq<char> {
    if line.len() > 0 && line.last() == '\r' {
        line.drop_last()
    } else {
        line
    }
}

/// The lines of a text: what comes before each line feed, without a carriage return right
/// before it, and what comes after the last, if anything.
pub open spec fn lines(s: Seq<char>) -> Seq<Seq<char>> {
    let all = split(s, '\n');
    let ended = all.drop_last().map_values(|line: Seq<char>| without_return(line));
    if all.last().len() == 0 {
        ended
    } else {
        ended.push(all.last())
    }
}

/// The lines of a text.
pub fn to_lines(s: &Vec<char>) -> (list: Vec<Vec<char>>)
    ensures
        texts(list@) == lines(s@),
{
    let mut all = split_chars(s, '\n');
    let ghost split_up = split(s@, '\n');
    proof {
        lemma_split_some(s@, '\n');
    }
    assert(all@.len() == texts(all@).len());
    let mut list: Vec<Vec<char>> = Vec::new();
    let n = all.len() - 1;
    for i in 0..n
        invariant
            n == all@.len() - 1,
            texts(all@) == split_up,
            texts(list@) == split_up.drop_last().map_values(
                |line: Seq<char>| without_return(line),
            ).take(i as int),
    {
        let line = &all[i];
        assert(texts(all@)[i as int] == line@);
        let ghost held = list@;
        let end = if line.len() > 0 && line[line.len() - 1] == '\r' {
            line.len() - 1
        } else {
            line.len()
        };
        let cut = part(line, 0, end);
        assert(cut@ =~= without_return(line@));
        list.push(cut);
        assert(texts(list@) =~= texts(held).push(without_return(line@)));
    }
    let last = part(&all[n], 0, all[n].len());
    assert(last@ =~= texts(all@)[n as int]);
    let ghost ended = split_up.drop_last().map_values(|line: Seq<char>| without_return(line));
    assert(ended.take(n as int) =~= ended);
    if last.len() > 0 {
        let ghost held = list@;
        list.push(last);
        assert(texts(list@) =~= texts(held).push(last@));
    }
    list
}

/// What comes before the first separator, and what comes after it if there is one.
pub open spec fn split_once(s: Seq<char>, separator: char) -> (Seq<char>, Option<Seq<char>>) {
    let at = text::index_of(s, separator);
    (
        s.take(at),
        if at < s.len() {
            Some(s.skip(at + 1))
        } else {
            None
        },
    )
}

/// What comes before the first separator, and what comes after it if there is one.
pub fn cut_once(s: &Vec<char>, separator: char) -> (halves: (Vec<char>, Option<Vec<char>>))
    ensures
        halves.0@ == split_once(s@, separator).0,
        match halves.1 {
            Some(after) => split_once(s@, separator).1 == Some(after@),
            None => split_once(s@, separator).1 is None,
        },
{
    assert(s@.skip(0) == s@);
    let at = place_of(s, separator, 0);
    let head = part(s, 0, at);
    assert(head@ =~= s@.take(at as int));
    if at < s.len() {
        let tail = part(s, at + 1, s.len());
        assert(tail@ =~= s@.skip(at + 1));
        (head, Some(tail))
    } else {
        (head, None)
    }
}

/// Several runs with a separator between each two.
pub open spec fn glued<T>(runs: Seq<Seq<T>>, separator: T) -> Seq<T>
    decreases runs.len(),
{
    if runs.len() == 0 {
        Seq::empty()
    } else if runs.len() == 1 {
        runs[0]
    } else {
        runs[0].push(separator) + glued(runs.skip(1), separator)
    }
}

/// What is cut at a separator, put together with separators, is what it was; no separator is
/// left in a run.
pub proof fn law_split_glues_back<T>(s: Seq<T>, separator: T)
    ensures
        split(s, separator).len() > 0,
        glued(split(s, separator), separator) == s,
        forall|i: int, j: int|
            0 <= i < split(s, separator).len() && 0 <= j < split(s, separator)[i].len()
                ==> #[trigger] split(s, separator)[i][j] != separator,
    decreases s.len(),
{
    let runs = split(s, separator);
    if s.len() > 0 {
        let rest = split(s.skip(1), separator);
        law_split_glues_back(s.skip(1), separator);
        if s[0] == separator {
            assert(runs.skip(1) =~= rest);
            assert(glued(runs, separator) =~= seq![separator] + s.skip(1));
            assert(s =~= seq![separator] + s.skip(1));
            assert forall|i: int, j: int|
                0 <= i < runs.len() && 0 <= j < runs[i].len() implies #[trigger] runs[i][j]
                != separator by {
                assert(runs[i] == rest[i - 1]);
                assert(rest[i - 1][j] != separator);
            }
        } else {
            assert(runs[0] == seq![s[0]] + rest[0]);
            assert(runs.skip(1) =~= rest.skip(1));
            assert(glued(runs, separator) =~= seq![s[0]] + glued(rest, separator));
            assert(s =~= seq![s[0]] + s.skip(1));
            assert forall|i: int, j: int|
                0 <= i < runs.len() && 0 <= j < runs[i].len() implies #[trigger] runs[i][j]
                != separator by {
                if i > 0 {
                    assert(runs[i] == rest[i]);
                    assert(rest[i][j] != separator);
                } else if j > 0 {
                    assert(rest[0][j - 1] != separator);
                }
            }
        }
    }
}

/// A line ends before a line feed, and before a carriage return right before it; what comes
/// after the last line feed is a line when there is any of it, carriage return and all.
pub proof fn law_a_line_ends_at_its_line_feed(line: Seq<char>, rest: Seq<char>)
    requires
        forall|i: int| 0 <= i < line.len() ==> line[i] != '\n',
    ensures
        line.len() == 0 || line.last() != '\r' ==> lines(line + (seq!['\n'] + rest)) == seq![line]
            + lines(rest),
        lines(line + (seq!['\r', '\n'] + rest)) == seq![line] + lines(rest),
        lines(line) == if line.len() == 0 {
            Seq::empty()
        } else {
            seq![line]
        },
{
    lemma_split_none(line, '\n');
    assert(seq![line].drop_last().map_values(|line: Seq<char>| without_return(line)) =~= Seq::empty());
    assert(lines(line) =~= if line.len() == 0 {
        Seq::empty()
    } else {
        seq![line]
    });
    lemma_first_line(line, rest);
    let ended = line.push('\r');
    assert forall|i: int| 0 <= i < ended.len() implies ended[i] != '\n' by {
        if i < line.len() {
            assert(ended[i] == line[i]);
        }
    }
    lemma_first_line(ended, rest);
    assert(ended + (seq!['\n'] + rest) =~= line + (seq!['\r', '\n'] + rest));
    assert(without_return(ended) =~= line);
}

proof fn lemma_first_line(line: Seq<char>, rest: Seq<char>)
    requires
        forall|i: int| 0 <= i < line.len() ==> line[i] != '\n',
    ensures
        lines(line + (seq!['\n'] + rest)) == seq![without_return(line)] + lines(rest),
{
    let whole = line + (seq!['\n'] + rest);
    let after = split(rest, '\n');
    let all = split(whole, '\n');
    lemma_split_none(line, '\n');
    assert(whole =~= line.push('\n') + rest);
    lemma_split_concat(line, '\n', rest);
    lemma_split_some(rest, '\n');
    assert(all =~= seq![line] + after);
    assert(all.last() == after.last());
    let ended = after.drop_last().map_values(|line: Seq<char>| without_return(line));
    assert(all.drop_last().map_values(|line: Seq<char>| without_return(line)) =~= seq![
        without_return(line),
    ] + ended);
    assert(lines(whole) =~= seq![without_return(line)] + lines(rest));
}

/// A text is cut at its first separator, and not at all without one.
pub proof fn law_a_text_is_cut_at_its_first_separator(
    before: Seq<char>,
    separator: char,
    after: Seq<char>,
)
    requires
        forall|i: int| 0 <= i < before.len() ==> before[i] != separator,
    ensures
        split_once(before + (seq![separator] + after), separator) == (before, Some(after)),
        split_once(before, separator) == (before, None::<Seq<char>>),
{
    let s = before + (seq![separator] + after);
    let n = before.len() as int;
    assert forall|i: int| 0 <= i < n implies s[i] != separator by {
        assert(s[i] == before[i]);
    }
    assert(s[n] == separator);
    text::lemma_index_of_is(s, separator, n);
    text::lemma_index_of_is(before, separator, n);
    assert(s.take(n) =~= before);
    assert(s.skip(n + 1) =~= after);
    assert(before.take(n) =~= before);
}

} // verus!
