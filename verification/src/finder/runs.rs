//! Maximal runs of marked positions.

use vstd::prelude::*;

verus! {

/// The maximal runs of marked positions, each by its first and last position,
/// in ascending order.
pub open spec fn runs(marks: Seq<bool>) -> Seq<(i32, i32)>
    decreases marks.len(),
{
    if marks.len() == 0 {
        Seq::empty()
    } else {
        let before = runs(marks.drop_last());
        let x = (marks.len() - 1) as i32;
        if !marks.last() {
            before
        } else if before.len() > 0 && before.last().1 == x - 1 {
            before.drop_last().push((before.last().0, x))
        } else {
            before.push((x, x))
        }
    }
}

/// Whether position `x` lies in run `r`.
pub open spec fn in_run(r: (i32, i32), x: int) -> bool {
    r.0 <= x <= r.1
}

/// Runs in ascending order, not empty, inside `0..n`, and each at least one
/// position away from the next.
pub open spec fn separated(rs: Seq<(i32, i32)>, n: int) -> bool {
    &&& forall|i: int|
        #![trigger rs[i]]
        0 <= i < rs.len() ==> 0 <= rs[i].0 <= rs[i].1 < n
    &&& forall|i: int, j: int|
        #![trigger rs[i], rs[j]]
        0 <= i < j < rs.len() ==> rs[i].1 + 1 < rs[j].0
}

/// The runs of a mask are separated, and a position is marked exactly when a
/// run holds it.
pub proof fn runs_cover(marks: Seq<bool>)
    requires
        marks.len() <= 0x7fff_ffff,
    ensures
        separated(runs(marks), marks.len() as int),
        forall|i: int, x: int|
            #![trigger runs(marks)[i], marks[x]]
            0 <= i < runs(marks).len() && in_run(runs(marks)[i], x) ==> marks[x],
        forall|x: int|
            #![trigger marks[x]]
            0 <= x < marks.len() && marks[x] ==> exists|i: int|
                #![trigger runs(marks)[i]]
                0 <= i < runs(marks).len() && in_run(runs(marks)[i], x),
    decreases marks.len(),
{
    if marks.len() > 0 {
        let m = marks.drop_last();
        runs_cover(m);
        let before = runs(m);
        let after = runs(marks);
        let n = marks.len() as int;
        let x = (n - 1) as i32;
        assert(forall|y: int| 0 <= y < n - 1 ==> m[y] == marks[y]);
        if marks.last() {
            if before.len() > 0 && before.last().1 == x - 1 {
                let k = before.len() - 1;
                assert(after == before.update(k, (before[k].0, x)));
                assert forall|y: int| 0 <= y < n && marks[y] implies exists|i: int|
                    #![trigger after[i]]
                    0 <= i < after.len() && in_run(after[i], y) by {
                    if y == n - 1 {
                        assert(in_run(after[k], y));
                    } else {
                        assert(m[y]);
                        let i = choose|i: int|
                            #![trigger before[i]]
                            0 <= i < before.len() && in_run(before[i], y);
                        assert(in_run(after[i], y));
                    }
                }
                assert forall|i: int, y: int|
                    0 <= i < after.len() && in_run(#[trigger] after[i], y) implies
                    #[trigger] marks[y] by {
                    if y != n - 1 {
                        assert(in_run(before[i], y));
                        assert(m[y]);
                    }
                }
            } else {
                let k = before.len() as int;
                assert(after == before.push((x, x)));
                assert forall|y: int| 0 <= y < n && marks[y] implies exists|i: int|
                    #![trigger after[i]]
                    0 <= i < after.len() && in_run(after[i], y) by {
                    if y == n - 1 {
                        assert(in_run(after[k], y));
                    } else {
                        assert(m[y]);
                        let i = choose|i: int|
                            #![trigger before[i]]
                            0 <= i < before.len() && in_run(before[i], y);
                        assert(in_run(after[i], y));
                    }
                }
                assert forall|i: int, y: int|
                    0 <= i < after.len() && in_run(#[trigger] after[i], y) implies
                    #[trigger] marks[y] by {
                    if i < k {
                        assert(in_run(before[i], y));
                        assert(m[y]);
                    }
                }
                assert forall|i: int, j: int| 0 <= i < j < after.len() implies (
                #[trigger] after[i]).1 + 1 < (#[trigger] after[j]).0 by {
                    if j == k {
                        assert(before[i].1 <= before[k - 1].1);
                        assert(m[before[k - 1].1 as int]);
                    }
                }
            }
        } else {
            assert forall|y: int| 0 <= y < n && marks[y] implies exists|i: int|
                #![trigger after[i]]
                0 <= i < after.len() && in_run(after[i], y) by {
                assert(m[y]);
            }
            assert forall|i: int, y: int|
                0 <= i < after.len() && in_run(#[trigger] after[i], y) implies
                #[trigger] marks[y] by {
                assert(in_run(before[i], y));
                assert(m[y]);
            }
        }
    }
}

/// The maximal runs of marked positions.
pub fn find_runs(marks: &[bool]) -> (r: Vec<(i32, i32)>)
    requires
        marks@.len() <= 0x7fff_ffff,
    ensures
        r@ == runs(marks@),
{
    let mut r: Vec<(i32, i32)> = Vec::new();
    let mut x: usize = 0;
    proof {
        assert(marks@.take(0) =~= Seq::empty());
    }
    while x < marks.len()
        invariant
            x <= marks@.len() <= 0x7fff_ffff,
            r@ == runs(marks@.take(x as int)),
        decreases marks@.len() - x,
    {
        let ghost now = marks@.take(x + 1);
        proof {
            assert(now.drop_last() =~= marks@.take(x as int));
            runs_cover(now.drop_last());
        }
        if marks[x] {
            let k: usize = r.len();
            if k > 0 && r[k - 1].1 == x as i32 - 1 {
                let first: i32 = r[k - 1].0;
                r.pop();
                r.push((first, x as i32));
            } else {
                r.push((x as i32, x as i32));
            }
        }
        x = x + 1;
    }
    proof {
        assert(marks@.take(x as int) =~= marks@);
    }
    r
}

} // verus!
