//! The edit distance of two texts.
use super::strings::chars_of;
use vstd::prelude::*;

verus! {

/// The number of insertions, deletions and replacements of one character that
/// turn one text into the other, by the last characters of the two.
pub open spec fn edits(a: Seq<char>, b: Seq<char>) -> nat
    decreases a.len() + b.len(),
{
    if a.len() == 0 {
        b.len()
    } else if b.len() == 0 {
        a.len()
    } else if a.last() == b.last() {
        edits(a.drop_last(), b.drop_last())
    } else {
        1 + least3(
            edits(a.drop_last(), b),
            edits(a, b.drop_last()),
            edits(a.drop_last(), b.drop_last()),
        )
    }
}

pub open spec fn least3(x: nat, y: nat, z: nat) -> nat {
    if x <= y && x <= z {
        x
    } else if y <= z {
        y
    } else {
        z
    }
}

/// The distance is at most the length of the longer text.
pub proof fn lemma_edits_bounded(a: Seq<char>, b: Seq<char>)
    ensures
        edits(a, b) <= a.len() || edits(a, b) <= b.len(),
    decreases a.len() + b.len(),
{
    if a.len() > 0 && b.len() > 0 {
        lemma_edits_bounded(a.drop_last(), b.drop_last());
    }
}

/// One row of the table of distances: cell `j` for the first `j + 1` characters
/// of `b`.
spec fn is_row(row: Seq<usize>, a: Seq<char>, b: Seq<char>) -> bool {
    row.len() == b.len() && forall|j: int|
        0 <= j < row.len() ==> #[trigger] row[j] == edits(a, b.take(j + 1))
}

/// The edit distance of two texts.
pub(crate) fn distance(a: &[char], b: &[char]) -> (d: usize)
    ensures
        d == edits(a@, b@),
{
    let n: usize = b.len();
    let mut row: Vec<usize> = Vec::new();
    let mut j: usize = 0;
    while j < n
        invariant
            j <= n,
            n == b@.len(),
            row@.len() == j,
            forall|k: int| 0 <= k < j ==> #[trigger] row@[k] == k + 1,
        decreases n - j,
    {
        row.push(j + 1);
        j = j + 1;
    }
    let mut i: usize = 0;
    proof {
        assert(is_row(row@, a@.take(0), b@));
    }
    while i < a.len()
        invariant
            i <= a@.len(),
            n == b@.len(),
            is_row(row@, a@.take(i as int), b@),
        decreases a@.len() - i,
    {
        let ghost above = row@;
        let ghost upper = a@.take(i as int);
        let ghost lower = a@.take(i + 1);
        proof {
            assert(lower.drop_last() =~= upper);
            assert(b@.take(0) =~= Seq::<char>::empty());
        }
        let mut corner: usize = i;
        let mut left: usize = i + 1;
        let mut k: usize = 0;
        while k < n
            invariant
                i < a@.len(),
                k <= n,
                n == b@.len(),
                upper == a@.take(i as int),
                lower == a@.take(i + 1),
                lower.drop_last() == upper,
                lower.last() == a@[i as int],
                is_row(above, upper, b@),
                row@.len() == n,
                forall|m: int| 0 <= m < k ==> #[trigger] row@[m] == edits(lower, b@.take(m + 1)),
                forall|m: int| k <= m < n ==> #[trigger] row@[m] == above[m],
                corner == edits(upper, b@.take(k as int)),
                left == edits(lower, b@.take(k as int)),
            decreases n - k,
        {
            let ghost bk = b@.take(k + 1);
            proof {
                assert(bk.drop_last() =~= b@.take(k as int));
                assert(row@[k as int] == above[k as int]);
                assert(above[k as int] == edits(upper, bk));
                lemma_edits_bounded(lower, bk);
            }
            let up: usize = row[k];
            let cell: usize = if a[i] == b[k] {
                corner
            } else {
                let best: usize = if up <= left && up <= corner {
                    up
                } else if left <= corner {
                    left
                } else {
                    corner
                };
                best + 1
            };
            corner = up;
            left = cell;
            row.set(k, cell);
            k = k + 1;
        }
        i = i + 1;
    }
    proof {
        assert(a@.take(a@.len() as int) =~= a@);
        assert(b@.take(n as int) =~= b@);
    }
    if n == 0 {
        a.len()
    } else {
        row[n - 1]
    }
}

/// The edit distance of two texts, in characters.
pub fn levenshtein(a: &str, b: &str) -> (d: usize)
    ensures
        d == edits(a@, b@),
{
    let x = chars_of(a);
    let y = chars_of(b);
    distance(x.as_slice(), y.as_slice())
}

/// The edit distance of two texts, in characters.
pub fn edit_distance(a: &str, b: &str) -> (d: u32)
    requires
        a@.len() <= u32::MAX,
        b@.len() <= u32::MAX,
    ensures
        d == edits(a@, b@),
{
    proof {
        lemma_edits_bounded(a@, b@);
    }
    let d: usize = levenshtein(a, b);
    d as u32
}

} // verus!
