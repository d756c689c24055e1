//! Names in order: which of two comes first, and lists kept by name.

use vstd::prelude::*;
use vstd::string::*;

use crate::text::{self, chars_of};

verus! {

/// Whether `a` comes before `b`: by the first character that differs, the shorter first when
/// none does.
pub open spec fn less(a: Seq<char>, b: Seq<char>) -> bool
    decreases a.len(),
{
    if b.len() == 0 {
        false
    } else if a.len() == 0 {
        true
    } else if a[0] != b[0] {
        a[0] < b[0]
    } else {
        less(a.skip(1), b.skip(1))
    }
}

pub proof fn lemma_less_irreflexive(a: Seq<char>)
    ensures
        !less(a, a),
    decreases a.len(),
{
    if a.len() > 0 {
        lemma_less_irreflexive(a.skip(1));
    }
}

pub proof fn lemma_less_transitive(a: Seq<char>, b: Seq<char>, c: Seq<char>)
    requires
        less(a, b),
        less(b, c),
    ensures
        less(a, c),
    decreases a.len(),
{
    if a.len() > 0 && a[0] == b[0] && b[0] == c[0] {
        lemma_less_transitive(a.skip(1), b.skip(1), c.skip(1));
    }
}

pub proof fn lemma_less_total(a: Seq<char>, b: Seq<char>)
    ensures
        less(a, b) || less(b, a) || a == b,
    decreases a.len(),
{
    if a.len() == 0 {
        if b.len() == 0 {
            assert(a =~= b);
        }
    } else if b.len() > 0 && a[0] == b[0] {
        lemma_less_total(a.skip(1), b.skip(1));
        if a.skip(1) == b.skip(1) {
            assert(a =~= seq![a[0]] + a.skip(1));
            assert(b =~= seq![b[0]] + b.skip(1));
        }
    }
}

/// Whether `a` comes before `b`.
pub fn before(a: &str, b: &str) -> (yes: bool)
    ensures
        yes == less(a@, b@),
{
    let a = chars_of(a);
    let b = chars_of(b);
    let mut i: usize = 0;
    assert(a@.skip(0) =~= a@);
    assert(b@.skip(0) =~= b@);
    while i < a.len() && i < b.len() && a[i] == b[i]
        invariant
            i <= a.len(),
            i <= b.len(),
            less(a@, b@) == less(a@.skip(i as int), b@.skip(i as int)),
        decreases a.len() - i,
    {
        assert(a@.skip(i as int).skip(1) =~= a@.skip(i + 1));
        assert(b@.skip(i as int).skip(1) =~= b@.skip(i + 1));
        i += 1;
    }
    if i >= b.len() {
        false
    } else if i >= a.len() {
        true
    } else {
        a[i] < b[i]
    }
}

// ---- Lists kept by name ----

/// Whether names come in order, none twice.
pub open spec fn sorted(keys: Seq<Seq<char>>) -> bool {
    forall|i: int, j: int| 0 <= i < j < keys.len() ==> less(#[trigger] keys[i], #[trigger] keys[j])
}

/// Where a name stands among others, or where it would: after every one that comes before it.
pub open spec fn place(keys: Seq<Seq<char>>, key: Seq<char>) -> int
    decreases keys.len(),
{
    if keys.len() == 0 || !less(keys[0], key) {
        0
    } else {
        1 + place(keys.skip(1), key)
    }
}

/// Whether a name is where it would stand.
pub open spec fn stands(keys: Seq<Seq<char>>, key: Seq<char>) -> bool {
    place(keys, key) < keys.len() && keys[place(keys, key)] == key
}

/// The names of a list.
pub open spec fn names<V>(list: Seq<(Seq<char>, V)>) -> Seq<Seq<char>> {
    list.map_values(|entry: (Seq<char>, V)| entry.0)
}

/// The list with a value under a name, in place of the one it had.
pub open spec fn put<V>(list: Seq<(Seq<char>, V)>, key: Seq<char>, value: V) -> Seq<
    (Seq<char>, V),
> {
    let at = place(names(list), key);
    if stands(names(list), key) {
        list.update(at, (key, value))
    } else {
        list.insert(at, (key, value))
    }
}

/// The value under a name.
pub open spec fn get<V>(list: Seq<(Seq<char>, V)>, key: Seq<char>) -> Option<V> {
    if stands(names(list), key) {
        Some(list[place(names(list), key)].1)
    } else {
        None
    }
}

/// Every name before the place comes before the name, the one at it does not.
pub proof fn lemma_place(keys: Seq<Seq<char>>, key: Seq<char>)
    ensures
        0 <= place(keys, key) <= keys.len(),
        forall|i: int| 0 <= i < place(keys, key) ==> less(#[trigger] keys[i], key),
        place(keys, key) < keys.len() ==> !less(keys[place(keys, key)], key),
    decreases keys.len(),
{
    if keys.len() > 0 && less(keys[0], key) {
        let rest = keys.skip(1);
        lemma_place(rest, key);
        assert forall|i: int| 0 <= i < place(keys, key) implies less(#[trigger] keys[i], key) by {
            if i > 0 {
                assert(rest[i - 1] == keys[i]);
            }
        }
        if place(keys, key) < keys.len() {
            assert(rest[place(rest, key)] == keys[place(keys, key)]);
        }
    }
}

/// The only place with what comes before it before the name, and what comes from it on not.
pub proof fn lemma_place_is(keys: Seq<Seq<char>>, key: Seq<char>, at: int)
    requires
        0 <= at <= keys.len(),
        forall|i: int| 0 <= i < at ==> less(#[trigger] keys[i], key),
        at < keys.len() ==> !less(keys[at], key),
    ensures
        place(keys, key) == at,
{
    lemma_place(keys, key);
    let p = place(keys, key);
    if p < at {
        assert(less(keys[p], key));
    } else if at < p {
        assert(less(keys[at], key));
    }
}

/// A name of a sorted list stands where it is.
pub proof fn lemma_place_of_member(keys: Seq<Seq<char>>, at: int)
    requires
        sorted(keys),
        0 <= at < keys.len(),
    ensures
        place(keys, keys[at]) == at,
        stands(keys, keys[at]),
{
    lemma_less_irreflexive(keys[at]);
    lemma_place_is(keys, keys[at], at);
}

/// A value put under a name leaves the list sorted, is found under it, and changes what is
/// found under no other.
pub proof fn lemma_put<V>(list: Seq<(Seq<char>, V)>, key: Seq<char>, value: V)
    requires
        sorted(names(list)),
    ensures
        sorted(names(put(list, key, value))),
        get(put(list, key, value), key) == Some(value),
        forall|other: Seq<char>| other != key ==> #[trigger] get(put(list, key, value), other)
            == get(list, other),
{
    let keys = names(list);
    let at = place(keys, key);
    lemma_place(keys, key);
    let after = put(list, key, value);
    let now = names(after);
    if stands(keys, key) {
        assert(now =~= keys);
        assert(sorted(now));
        assert(after[at] == (key, value));
        assert forall|other: Seq<char>| other != key implies #[trigger] get(after, other) == get(
            list,
            other,
        ) by {
            lemma_place(keys, other);
            if stands(keys, other) {
                assert(keys[at] == key);
                assert(place(keys, other) != at);
                assert(after[place(keys, other)] == list[place(keys, other)]);
            }
        }
    } else {
        assert(now =~= keys.insert(at, key));
        assert forall|i: int| at <= i < keys.len() implies less(key, #[trigger] keys[i]) by {
            lemma_less_total(keys[at], key);
            if i > at {
                lemma_less_transitive(key, keys[at], keys[i]);
            }
        }
        assert forall|i: int, j: int| 0 <= i < j < now.len() implies less(
            #[trigger] now[i],
            #[trigger] now[j],
        ) by {
            let a = if i < at {
                keys[i]
            } else if i == at {
                key
            } else {
                keys[i - 1]
            };
            let b = if j < at {
                keys[j]
            } else if j == at {
                key
            } else {
                keys[j - 1]
            };
            assert(now[i] == a && now[j] == b);
        }
        assert(now[at] == key);
        lemma_place_of_member(now, at);
        assert(after[at] == (key, value));
        assert forall|other: Seq<char>| other != key implies #[trigger] get(after, other) == get(
            list,
            other,
        ) by {
            let p = place(keys, other);
            lemma_place(keys, other);
            if stands(keys, other) {
                if p < at {
                    assert(now[p] == other);
                    lemma_place_of_member(now, p);
                    assert(after[p] == list[p]);
                } else {
                    assert(now[p + 1] == other);
                    lemma_place_of_member(now, p + 1);
                    assert(after[p + 1] == list[p]);
                }
            } else if stands(now, other) {
                lemma_place(now, other);
                let q = place(now, other);
                assert(now[q] == other);
                if q < at {
                    assert(keys[q] == other);
                    lemma_place_of_member(keys, q);
                } else {
                    assert(q != at);
                    assert(keys[q - 1] == other);
                    lemma_place_of_member(keys, q - 1);
                }
            }
        }
    }
}

/// The names of a list.
pub open spec fn keys_of<T>(list: Seq<(String, T)>) -> Seq<Seq<char>> {
    list.map_values(|entry: (String, T)| entry.0@)
}

/// Where a name stands, or would, and whether it does.
pub fn find<T>(list: &Vec<(String, T)>, key: &str) -> (found: (usize, bool))
    ensures
        found.0 <= list.len(),
        found.0 == place(keys_of(list@), key@),
        found.1 == stands(keys_of(list@), key@),
{
    let ghost keys = keys_of(list@);
    let mut i: usize = 0;
    while i < list.len() && before(list[i].0.as_str(), key)
        invariant
            i <= list.len(),
            keys == keys_of(list@),
            forall|j: int| 0 <= j < i ==> less(#[trigger] keys[j], key@),
        decreases list.len() - i,
    {
        assert(keys[i as int] == list@[i as int].0@);
        i += 1;
    }
    proof {
        if i < list.len() {
            assert(keys[i as int] == list@[i as int].0@);
        }
        lemma_place_is(keys, key@, i as int);
    }
    (i, i < list.len() && text::same(list[i].0.as_str(), key))
}

/// Two names come in the order of the first characters that differ, whatever comes after.
pub proof fn law_the_first_difference_decides(
    common: Seq<char>,
    a: char,
    b: char,
    x: Seq<char>,
    y: Seq<char>,
)
    requires
        a < b,
    ensures
        less(common + (seq![a] + x), common + (seq![b] + y)),
        !less(common + (seq![b] + y), common + (seq![a] + x)),
    decreases common.len(),
{
    let first = common + (seq![a] + x);
    let second = common + (seq![b] + y);
    if common.len() == 0 {
        assert(first[0] == a && second[0] == b);
    } else {
        let rest = common.skip(1);
        law_the_first_difference_decides(rest, a, b, x, y);
        assert(first.skip(1) =~= rest + (seq![a] + x));
        assert(second.skip(1) =~= rest + (seq![b] + y));
        assert(first[0] == common[0] && second[0] == common[0]);
    }
}

/// A name comes before every longer one that starts with it, and not before itself.
pub proof fn law_the_shorter_comes_first(a: Seq<char>, more: Seq<char>)
    ensures
        less(a, a + more) == (more.len() > 0),
        !less(a + more, a),
    decreases a.len(),
{
    let all = a + more;
    if a.len() > 0 {
        law_the_shorter_comes_first(a.skip(1), more);
        assert(all.skip(1) =~= a.skip(1) + more);
        assert(all[0] == a[0]);
    } else {
        assert(all =~= more);
    }
}

} // verus!
