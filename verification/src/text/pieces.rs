//! How texts are made of their pieces.
use super::strings;
use vstd::prelude::*;

verus! {

/// Whether a character is a visible one of the basic alphabet.
pub open spec fn is_visible(c: char) -> bool {
    0x21 <= c as u32 <= 0x7e
}

/// Normalizing goes letter by letter: a text of two parts is normalized part by
/// part, spaces and line breaks go, and letters, digits and signs stay.
pub proof fn texts_are_normalized_by_letters(a: Seq<char>, b: Seq<char>, c: char)
    ensures
        strings::normalized(a + b) == strings::normalized(a) + strings::normalized(b),
        strings::normalized(seq![c]).len() == 0 || strings::normalized(seq![c]) == seq![c],
        is_visible(c) || 0x4e00 <= c as u32 <= 0x9fff ==> strings::normalized(seq![c]) == seq![c],
        c == ' ' || c == '\n' || c == '\t' || c == '\r' || c as u32 == 0x3000
            ==> strings::normalized(seq![c]).len() == 0,
        strings::normalized(Seq::<char>::empty()).len() == 0,
{
    let keep = |x: char| !strings::is_white(x);
    Seq::<char>::filter_distributes_over_add(a, b, keep);
    reveal(Seq::filter);
    let s = seq![c];
    assert(s.drop_last() =~= Seq::<char>::empty());
    assert(Seq::<char>::empty().filter(keep) =~= Seq::<char>::empty());
    assert(s.last() == c);
    assert(Seq::<char>::empty().push(c) =~= s);
}

/// One text is itself, and each further text comes behind the others and a
/// separator.
pub proof fn texts_are_joined_in_order(parts: Seq<Seq<char>>, last: Seq<char>, sep: Seq<char>)
    ensures
        strings::joined(Seq::<Seq<char>>::empty(), sep).len() == 0,
        strings::joined(seq![last], sep) == last,
        parts.len() > 0 ==> strings::joined(parts.push(last), sep) == strings::joined(parts, sep)
            + sep + last,
{
    assert(parts.push(last).drop_last() =~= parts);
}

proof fn lemma_leading(s: Seq<char>) -> (k: int)
    ensures
        0 <= k <= s.len(),
        strings::without_leading(s) == s.skip(k),
        forall|i: int| 0 <= i < k ==> strings::is_white(#[trigger] s[i]),
        k < s.len() ==> !strings::is_white(s[k]),
    decreases s.len(),
{
    if s.len() > 0 && strings::is_white(s[0]) {
        let t = s.skip(1);
        let k = lemma_leading(t);
        assert(t.skip(k) =~= s.skip(k + 1));
        assert forall|i: int| 0 <= i < k + 1 implies strings::is_white(#[trigger] s[i]) by {
            if i > 0 {
                assert(s[i] == t[i - 1]);
            }
        }
        if k + 1 < s.len() {
            assert(s[k + 1] == t[k]);
        }
        k + 1
    } else {
        assert(s.skip(0) =~= s);
        0
    }
}

proof fn lemma_trailing(s: Seq<char>) -> (k: int)
    ensures
        0 <= k <= s.len(),
        strings::without_trailing(s) == s.take(k),
        forall|i: int| k <= i < s.len() ==> strings::is_white(#[trigger] s[i]),
        k > 0 ==> !strings::is_white(s[k - 1]),
    decreases s.len(),
{
    if s.len() > 0 && strings::is_white(s.last()) {
        let t = s.drop_last();
        let k = lemma_trailing(t);
        assert(t.take(k) =~= s.take(k));
        assert forall|i: int| k <= i < s.len() implies strings::is_white(#[trigger] s[i]) by {
            if i < t.len() {
                assert(s[i] == t[i]);
            }
        }
        if k > 0 {
            assert(s[k - 1] == t[k - 1]);
        }
        k
    } else {
        assert(s.take(s.len() as int) =~= s);
        s.len() as int
    }
}

/// Whether a text is another one without the white space at its ends.
pub open spec fn lies_bare(r: Seq<char>, s: Seq<char>, from: int, to: int) -> bool {
    &&& 0 <= from <= to <= s.len()
    &&& r == s.subrange(from, to)
    &&& forall|i: int| 0 <= i < from || to <= i < s.len() ==> strings::is_white(#[trigger] s[i])
}

/// Trimming takes away white space at both ends, all of it and nothing else.
pub proof fn trimming_bares_the_text(s: Seq<char>)
    ensures
        ({
            let r = strings::trimmed(s);
            &&& exists|from: int, to: int| #[trigger] lies_bare(r, s, from, to)
            &&& r.len() > 0 ==> !strings::is_white(r[0]) && !strings::is_white(r[r.len() - 1])
        }),
{
    let a = lemma_leading(s);
    let t = s.skip(a);
    let b = lemma_trailing(t);
    let r = strings::trimmed(s);
    assert(r =~= s.subrange(a, a + b));
    assert forall|i: int| 0 <= i < a || a + b <= i < s.len() implies strings::is_white(
        #[trigger] s[i],
    ) by {
        if i >= a + b {
            assert(s[i] == t[i - a]);
        }
    }
    assert(lies_bare(r, s, a, a + b));
    if r.len() > 0 {
        assert(r[0] == s[a]);
        assert(r[r.len() - 1] == t[b - 1]);
    }
}

} // verus!
