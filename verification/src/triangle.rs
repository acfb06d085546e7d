//! Maximum path sums through a triangle of numbers, where each step moves
//! from an entry to one of the two adjacent entries of the row below.

use vstd::prelude::*;
use vstd::math::max as spec_max;

verus! {

/// A well-formed triangle: at least one row, and row `i` holds `i + 1`
/// values.
pub open spec fn wf_triangle(t: Seq<Seq<usize>>) -> bool {
    &&& t.len() >= 1
    &&& forall|i: int| 0 <= i < t.len() ==> #[trigger] t[i].len() == i + 1
}

/// The greatest sum collected by any path that starts at row `r`, column `c`
/// and walks down to the bottom row, moving to one of the two adjacent
/// entries of the next row at each step.
pub open spec fn max_path(t: Seq<Seq<usize>>, r: int, c: int) -> int
    decreases t.len() - r,
{
    if r < 0 || r >= t.len() {
        0
    } else if r == t.len() - 1 {
        t[r][c] as int
    } else {
        t[r][c] + spec_max(max_path(t, r + 1, c), max_path(t, r + 1, c + 1))
    }
}

/// In a well-formed triangle every entry lies on some path from the apex, so
/// no partial maximum exceeds the maximum taken from the apex.
pub proof fn lemma_max_path_le_top(t: Seq<Seq<usize>>, r: int, c: int)
    requires
        wf_triangle(t),
        0 <= r < t.len(),
        0 <= c <= r,
    ensures
        max_path(t, r, c) <= max_path(t, 0, 0),
    decreases r,
{
    if r > 0 {
        let p = if c <= r - 1 { c } else { c - 1 };
        assert(max_path(t, r - 1, p)
            == t[r - 1][p] + spec_max(max_path(t, r, p), max_path(t, r, p + 1)));
        assert(max_path(t, r, c) <= max_path(t, r - 1, p));
        lemma_max_path_le_top(t, r - 1, p);
    }
}

/// Using the frontier method, find the maximum path through a triangle
/// summing the values of each element traversed as you go: the two bottom
/// rows are repeatedly folded into one until a single entry is left.
pub fn frontier_reduce(triangle: Vec<Vec<usize>>) -> (r: usize)
    requires
        wf_triangle(triangle.deep_view()),
        max_path(triangle.deep_view(), 0, 0) <= usize::MAX,
    ensures
        r == max_path(triangle.deep_view(), 0, 0),
{
    let ghost orig: Seq<Seq<usize>> = triangle.deep_view();
    let mut rows = triangle;
    proof {
        assert(orig.len() == rows@.len());
        assert forall|i: int| 0 <= i < rows@.len() implies orig[i] == #[trigger] rows@[i]@ by {
            assert(orig[i] =~= rows@[i]@);
        }
    }

    while rows.len() > 1
        invariant
            wf_triangle(orig),
            max_path(orig, 0, 0) <= usize::MAX,
            1 <= rows@.len() <= orig.len(),
            forall|i: int| 0 <= i < rows@.len() - 1 ==> #[trigger] rows@[i]@ == orig[i],
            rows@[rows@.len() - 1]@.len() == rows@.len(),
            forall|c: int| 0 <= c < rows@.len()
                ==> #[trigger] rows@[rows@.len() - 1]@[c]
                    == max_path(orig, rows@.len() - 1, c),
        decreases rows@.len(),
    {
        let ghost m = rows@.len() as int;
        let bottom = rows.pop().unwrap();
        let top = rows.pop().unwrap();
        assert(top@ == orig[m - 2]);
        assert(top@.len() == m - 1);

        let mut next: Vec<usize> = Vec::new();
        let mut i: usize = 0;
        while i < top.len()
            invariant
                wf_triangle(orig),
                max_path(orig, 0, 0) <= usize::MAX,
                2 <= m <= orig.len(),
                top@ == orig[m - 2],
                top@.len() == m - 1,
                bottom@.len() == m,
                forall|c: int| 0 <= c < m ==> #[trigger] bottom@[c] == max_path(orig, m - 1, c),
                i <= top@.len(),
                next@.len() == i,
                forall|c: int| 0 <= c < i ==> #[trigger] next@[c] == max_path(orig, m - 2, c),
            decreases top@.len() - i,
        {
            // Choose whether left or right is best
            let left = bottom[i];
            let right = bottom[i + 1];
            let n = if left >= right { left } else { right };
            proof {
                lemma_max_path_le_top(orig, m - 2, i as int);
            }
            next.push(top[i] + n);
            i = i + 1;
        }
        rows.push(next);
    }

    let row = &rows[0];
    row[0]
}

} // verus!
