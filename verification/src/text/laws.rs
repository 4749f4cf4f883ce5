//! What holds of the text operations together.
use super::distance;
use super::strings;
use vstd::prelude::*;

verus! {

/// Whether `t` is `s` after one insertion, deletion or replacement of a
/// character.
pub open spec fn one_edit(s: Seq<char>, t: Seq<char>) -> bool {
    ||| exists|k: int, c: char| 0 <= k <= s.len() && t == #[trigger] s.insert(k, c)
    ||| exists|k: int| 0 <= k < s.len() && t == #[trigger] s.remove(k)
    ||| exists|k: int, c: char| 0 <= k < s.len() && t == #[trigger] s.update(k, c)
}

/// Whether `n` edits turn `s` into `t`.
pub open spec fn reaches(s: Seq<char>, t: Seq<char>, n: nat) -> bool
    decreases n,
{
    if n == 0 {
        s == t
    } else {
        exists|m: Seq<char>| #[trigger] one_edit(s, m) && reaches(m, t, (n - 1) as nat)
    }
}

/// A character more or less at the end changes the distance by one at most.
proof fn lemma_adjacent(a: Seq<char>, b: Seq<char>)
    ensures
        a.len() > 0 ==> {
            &&& distance::edits(a, b) <= distance::edits(a.drop_last(), b) + 1
            &&& distance::edits(a.drop_last(), b) <= distance::edits(a, b) + 1
        },
        b.len() > 0 ==> {
            &&& distance::edits(a, b) <= distance::edits(a, b.drop_last()) + 1
            &&& distance::edits(a, b.drop_last()) <= distance::edits(a, b) + 1
        },
    decreases a.len() + b.len(),
{
    if a.len() > 0 && b.len() > 0 {
        lemma_adjacent(a.drop_last(), b);
        lemma_adjacent(a, b.drop_last());
        lemma_adjacent(a.drop_last(), b.drop_last());
    }
}

/// An edit before a common last character changes the distance by one at most
/// if it does so for what stands before that character.
proof fn lemma_same_last(s: Seq<char>, m: Seq<char>, t: Seq<char>)
    requires
        s.len() > 0,
        m.len() > 0,
        s.last() == m.last(),
        s.len() <= m.len() + 1,
        t.len() > 0 ==> {
            &&& distance::edits(s.drop_last(), t) <= distance::edits(m.drop_last(), t) + 1
            &&& distance::edits(s, t.drop_last()) <= distance::edits(m, t.drop_last()) + 1
            &&& distance::edits(s.drop_last(), t.drop_last()) <= distance::edits(
                m.drop_last(),
                t.drop_last(),
            ) + 1
        },
    ensures
        distance::edits(s, t) <= distance::edits(m, t) + 1,
{
}

proof fn lemma_insert(s: Seq<char>, k: int, c: char, t: Seq<char>)
    requires
        0 <= k <= s.len(),
    ensures
        distance::edits(s, t) <= distance::edits(s.insert(k, c), t) + 1,
        distance::edits(s.insert(k, c), t) <= distance::edits(s, t) + 1,
    decreases s.len() + t.len(),
{
    let m = s.insert(k, c);
    if k == s.len() {
        assert(m.drop_last() =~= s);
        lemma_adjacent(m, t);
    } else {
        assert(m.drop_last() =~= s.drop_last().insert(k, c));
        assert(m.last() == s.last());
        if t.len() > 0 {
            lemma_insert(s.drop_last(), k, c, t);
            lemma_insert(s, k, c, t.drop_last());
            lemma_insert(s.drop_last(), k, c, t.drop_last());
        }
        lemma_same_last(s, m, t);
        lemma_same_last(m, s, t);
    }
}

proof fn lemma_replace(s: Seq<char>, k: int, c: char, t: Seq<char>)
    requires
        0 <= k < s.len(),
    ensures
        distance::edits(s, t) <= distance::edits(s.update(k, c), t) + 1,
    decreases s.len() + t.len(),
{
    let m = s.update(k, c);
    if t.len() > 0 {
        lemma_replace(s, k, c, t.drop_last());
    }
    if k == s.len() - 1 {
        assert(m.drop_last() =~= s.drop_last());
        if t.len() > 0 {
            lemma_adjacent(s.drop_last(), t);
            lemma_adjacent(m, t.drop_last());
        }
    } else {
        assert(m.drop_last() =~= s.drop_last().update(k, c));
        assert(m.last() == s.last());
        if t.len() > 0 {
            lemma_replace(s.drop_last(), k, c, t);
            lemma_replace(s.drop_last(), k, c, t.drop_last());
        }
        lemma_same_last(s, m, t);
    }
}

/// One edit changes the distance to any text by one at most.
proof fn lemma_one_edit(s: Seq<char>, m: Seq<char>, t: Seq<char>)
    requires
        one_edit(s, m),
    ensures
        distance::edits(s, t) <= distance::edits(m, t) + 1,
{
    if exists|k: int, c: char| 0 <= k <= s.len() && m == #[trigger] s.insert(k, c) {
        let (k, c) = choose|k: int, c: char| 0 <= k <= s.len() && m == #[trigger] s.insert(k, c);
        lemma_insert(s, k, c, t);
    } else if exists|k: int| 0 <= k < s.len() && m == #[trigger] s.remove(k) {
        let k = choose|k: int| 0 <= k < s.len() && m == #[trigger] s.remove(k);
        assert(m.insert(k, s[k]) =~= s);
        lemma_insert(m, k, s[k], t);
    } else {
        let (k, c) = choose|k: int, c: char| 0 <= k < s.len() && m == #[trigger] s.update(k, c);
        lemma_replace(s, k, c, t);
    }
}

proof fn lemma_at_least(a: Seq<char>, b: Seq<char>, n: nat)
    requires
        reaches(a, b, n),
    ensures
        distance::edits(a, b) <= n,
    decreases n,
{
    if n == 0 {
        equal_texts_are_at_no_distance(a, b);
    } else {
        let m = choose|m: Seq<char>| #[trigger] one_edit(a, m) && reaches(m, b, (n - 1) as nat);
        lemma_at_least(m, b, (n - 1) as nat);
        lemma_one_edit(a, m, b);
    }
}

/// The same edits do with one character more at the end of both texts.
proof fn lemma_append(s: Seq<char>, t: Seq<char>, x: char, n: nat)
    requires
        reaches(s, t, n),
    ensures
        reaches(s.push(x), t.push(x), n),
    decreases n,
{
    if n > 0 {
        let m = choose|m: Seq<char>| #[trigger] one_edit(s, m) && reaches(m, t, (n - 1) as nat);
        lemma_append(m, t, x, (n - 1) as nat);
        if exists|k: int, c: char| 0 <= k <= s.len() && m == #[trigger] s.insert(k, c) {
            let (k, c) = choose|k: int, c: char|
                0 <= k <= s.len() && m == #[trigger] s.insert(k, c);
            assert(m.push(x) =~= s.push(x).insert(k, c));
        } else if exists|k: int| 0 <= k < s.len() && m == #[trigger] s.remove(k) {
            let k = choose|k: int| 0 <= k < s.len() && m == #[trigger] s.remove(k);
            assert(m.push(x) =~= s.push(x).remove(k));
        } else {
            let (k, c) = choose|k: int, c: char|
                0 <= k < s.len() && m == #[trigger] s.update(k, c);
            assert(m.push(x) =~= s.push(x).update(k, c));
        }
        assert(one_edit(s.push(x), m.push(x)));
    }
}

proof fn lemma_at_most(a: Seq<char>, b: Seq<char>)
    ensures
        reaches(a, b, distance::edits(a, b)),
    decreases a.len() + b.len(),
{
    let n = distance::edits(a, b);
    if a.len() == 0 && b.len() == 0 {
        assert(a =~= b);
    } else if a.len() > 0 && b.len() > 0 && a.last() == b.last() {
        lemma_at_most(a.drop_last(), b.drop_last());
        lemma_append(a.drop_last(), b.drop_last(), a.last(), n);
        assert(a.drop_last().push(a.last()) =~= a);
        assert(b.drop_last().push(b.last()) =~= b);
    } else if a.len() > 0 && n == 1 + distance::edits(a.drop_last(), b) {
        lemma_at_most(a.drop_last(), b);
        assert(a.drop_last() =~= a.remove(a.len() - 1));
        assert(one_edit(a, a.drop_last()));
    } else if b.len() > 0 && n == 1 + distance::edits(a, b.drop_last()) {
        lemma_at_most(a, b.drop_last());
        lemma_append(a, b.drop_last(), b.last(), (n - 1) as nat);
        assert(b.drop_last().push(b.last()) =~= b);
        assert(a.push(b.last()) =~= a.insert(a.len() as int, b.last()));
        assert(one_edit(a, a.push(b.last())));
    } else {
        lemma_at_most(a.drop_last(), b.drop_last());
        lemma_append(a.drop_last(), b.drop_last(), b.last(), (n - 1) as nat);
        assert(b.drop_last().push(b.last()) =~= b);
        assert(a.drop_last().push(b.last()) =~= a.update(a.len() - 1, b.last()));
        assert(one_edit(a, a.drop_last().push(b.last())));
    }
}

/// The distance is the least number of insertions, deletions and replacements
/// that turn one text into the other: so many do, and fewer do not.
pub proof fn distance_is_least_number_of_edits(a: Seq<char>, b: Seq<char>)
    ensures
        reaches(a, b, distance::edits(a, b)),
        forall|n: nat| reaches(a, b, n) ==> distance::edits(a, b) <= n,
{
    lemma_at_most(a, b);
    assert forall|n: nat| reaches(a, b, n) implies distance::edits(a, b) <= n by {
        lemma_at_least(a, b, n);
    }
}

/// Two texts are at distance zero if and only if they are equal.
pub proof fn equal_texts_are_at_no_distance(a: Seq<char>, b: Seq<char>)
    ensures
        distance::edits(a, b) == 0 <==> a == b,
    decreases a.len() + b.len(),
{
    if a.len() > 0 && b.len() > 0 {
        equal_texts_are_at_no_distance(a.drop_last(), b.drop_last());
        if a.last() == b.last() && a.drop_last() == b.drop_last() {
            assert(a =~= a.drop_last().push(a.last()));
            assert(b =~= b.drop_last().push(b.last()));
        }
    } else if a.len() == 0 && b.len() == 0 {
        assert(a =~= b);
    }
}

/// The distance does not depend on the order of the two texts.
pub proof fn distance_is_symmetric(a: Seq<char>, b: Seq<char>)
    ensures
        distance::edits(a, b) == distance::edits(b, a),
    decreases a.len() + b.len(),
{
    if a.len() > 0 && b.len() > 0 {
        distance_is_symmetric(a.drop_last(), b);
        distance_is_symmetric(a, b.drop_last());
        distance_is_symmetric(a.drop_last(), b.drop_last());
    }
}

/// A normalized text holds no white space, and normalizing it again changes
/// nothing.
pub proof fn normalizing_removes_white_space(s: Seq<char>)
    ensures
        forall|i: int|
            0 <= i < strings::normalized(s).len() ==> !strings::is_white(
                #[trigger] strings::normalized(s)[i],
            ),
        strings::normalized(strings::normalized(s)) == strings::normalized(s),
{
    let keep = |c: char| !strings::is_white(c);
    let r = s.filter(keep);
    lemma_kept(s);
    lemma_keeps_all(r);
}

proof fn lemma_kept(s: Seq<char>)
    ensures
        forall|i: int|
            0 <= i < strings::normalized(s).len() ==> !strings::is_white(
                #[trigger] strings::normalized(s)[i],
            ),
    decreases s.len(),
{
    reveal(Seq::filter);
    if s.len() > 0 {
        lemma_kept(s.drop_last());
        let before = strings::normalized(s.drop_last());
        let r = strings::normalized(s);
        assert forall|i: int| 0 <= i < r.len() implies !strings::is_white(#[trigger] r[i]) by {
            if i < before.len() {
                assert(r[i] == before[i]);
            }
        }
    }
}

proof fn lemma_keeps_all(s: Seq<char>)
    requires
        forall|i: int| 0 <= i < s.len() ==> !strings::is_white(#[trigger] s[i]),
    ensures
        strings::normalized(s) == s,
    decreases s.len(),
{
    reveal(Seq::filter);
    if s.len() > 0 {
        let t = s.drop_last();
        assert forall|i: int| 0 <= i < t.len() implies !strings::is_white(#[trigger] t[i]) by {
            assert(t[i] == s[i]);
        }
        lemma_keeps_all(t);
        assert(!strings::is_white(s[s.len() - 1]));
        assert(t.push(s.last()) =~= s);
    } else {
        assert(strings::normalized(s) =~= s);
    }
}

/// Being a part of one another does not depend on the order of the two texts,
/// and no text is a part of itself.
pub proof fn substring_test_is_symmetric(a: Seq<char>, b: Seq<char>)
    ensures
        strings::one_in_other(a, b) == strings::one_in_other(b, a),
        !strings::one_in_other(a, a),
{
}

} // verus!
