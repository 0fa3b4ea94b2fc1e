//! A beam falls through a grid of splitters: where it meets a splitter it
//! ends, and beams go on from the places to the left and right of it.
use crate::text::{chars_of, line_views, views};
use vstd::prelude::*;

verus! {

/// Why a manifold has no count.
#[derive(Clone, Copy, Debug, PartialEq, Eq, Structural)]
pub enum ManifoldError {
    /// The manifold has no row.
    Empty,
    /// A row is shorter than the first.
    ShortRow,
    /// Two splitters stand side by side, or a splitter stands in the first
    /// column.
    CrowdedSplitters,
    /// The count is more than an `i64` holds.
    Overflow,
}

/// The grid has a row, and every row is at least as long as the first.
pub open spec fn well_formed(m: Seq<Seq<char>>) -> bool {
    m.len() > 0 && forall|r: int| 0 <= r < m.len() ==> (#[trigger] m[r]).len() >= m[0].len()
}

/// Place `(i, j)` holds a splitter.
pub open spec fn splitter(m: Seq<Seq<char>>, i: int, j: int) -> bool {
    m[i][j] == '^'
}

/// No splitter has a splitter as its right neighbour, and none stands in the
/// first column.
pub open spec fn spaced(m: Seq<Seq<char>>) -> bool {
    &&& forall|i: int, j: int|
        0 <= i < m.len() && 0 <= j && j + 1 < m[0].len() ==> !(#[trigger] splitter(m, i, j)
            && splitter(m, i, j + 1))
    &&& forall|i: int| 0 <= i < m.len() && 0 < m[0].len() ==> !#[trigger] splitter(m, i, 0)
}

/// The splitters that a beam meets which enters place `(i, j)` from above
/// and falls: at a splitter the beam ends and beams fall on from the places
/// to its left and right, as far as the grid reaches; the left one only
/// where it is not the first column.
pub open spec fn hits(m: Seq<Seq<char>>, i: int, j: int) -> Set<(int, int)>
    decreases m.len() - i,
{
    if i < 0 || i >= m.len() {
        Set::empty()
    } else if splitter(m, i, j) {
        let left = if j >= 2 {
            hits(m, i + 1, j - 1)
        } else {
            Set::empty()
        };
        let right = if j + 1 < m[0].len() {
            hits(m, i + 1, j + 1)
        } else {
            Set::empty()
        };
        left.union(right).insert((i, j))
    } else {
        hits(m, i + 1, j)
    }
}

/// A grid of marks, as tall as the manifold and as wide as its first row.
pub open spec fn fits_grid(g: Seq<Vec<bool>>, m: Seq<Seq<char>>) -> bool {
    g.len() == m.len() && forall|r: int| 0 <= r < g.len() ==> (#[trigger] g[r])@.len() == m[0].len()
}

/// Place `(r, c)` lies on the grid of marks and is marked.
pub open spec fn marked(g: Seq<Vec<bool>>, r: int, c: int) -> bool {
    0 <= r < g.len() && 0 <= c < g[r]@.len() && g[r]@[c]
}

/// Every splitter that a beam from `(r, c)` meets is marked in `splits`.
pub open spec fn closed(m: Seq<Seq<char>>, splits: Seq<Vec<bool>>, r: int, c: int) -> bool {
    forall|a: int, b: int| #[trigger] hits(m, r, c).contains((a, b)) ==> marked(splits, a, b)
}

/// Every mark of `before` is a mark of `after`.
pub open spec fn grown(before: Seq<Vec<bool>>, after: Seq<Vec<bool>>) -> bool {
    forall|r: int, c: int| #[trigger] marked(before, r, c) ==> marked(after, r, c)
}

/// Every place that is marked in `after` and not in `before` lies below row
/// `i`, or is `(i, j)` itself.
pub open spec fn fresh_below(before: Seq<Vec<bool>>, after: Seq<Vec<bool>>, i: int, j: int) -> bool {
    forall|r: int, c: int|
        #[trigger] marked(after, r, c) && !marked(before, r, c) ==> r > i || (r == i && c == j)
}

/// For every place visited below row `i`, the splitters that a beam from it
/// meets are marked.
pub open spec fn settled_below(
    m: Seq<Seq<char>>,
    visited: Seq<Vec<bool>>,
    splits: Seq<Vec<bool>>,
    i: int,
) -> bool {
    forall|r: int, c: int| #[trigger] marked(visited, r, c) && r > i ==> closed(m, splits, r, c)
}

/// For every place visited below row `i`, and for `(i, j)` if visited, the
/// splitters that a beam from it meets are marked.
pub open spec fn settled_from(
    m: Seq<Seq<char>>,
    visited: Seq<Vec<bool>>,
    splits: Seq<Vec<bool>>,
    i: int,
    j: int,
) -> bool {
    forall|r: int, c: int|
        #[trigger] marked(visited, r, c) && (r > i || (r == i && c == j)) ==> closed(m, splits, r, c)
}

/// Every mark of `after` that is none of `before` is a splitter that a beam
/// from `(i, j)` meets.
pub open spec fn only_hits(
    m: Seq<Seq<char>>,
    before: Seq<Vec<bool>>,
    after: Seq<Vec<bool>>,
    i: int,
    j: int,
) -> bool {
    forall|a: int, b: int|
        #[trigger] marked(after, a, b) && !marked(before, a, b) ==> hits(m, i, j).contains((a, b))
}

/// What is closed stays closed when marks are added.
pub proof fn lemma_closed_grows(
    m: Seq<Seq<char>>,
    before: Seq<Vec<bool>>,
    after: Seq<Vec<bool>>,
    r: int,
    c: int,
)
    requires
        closed(m, before, r, c),
        grown(before, after),
    ensures
        closed(m, after, r, c),
{
    assert forall|a: int, b: int| #[trigger] hits(m, r, c).contains((a, b)) implies marked(
        after,
        a,
        b,
    ) by {
        assert(marked(before, a, b));
    }
}

/// A beam that falls through places without splitter meets what it meets
/// further down.
pub proof fn lemma_fall(m: Seq<Seq<char>>, r: int, i: int, j: int)
    requires
        0 <= r <= i <= m.len(),
        forall|k: int| r <= k < i ==> !#[trigger] splitter(m, k, j),
    ensures
        hits(m, r, j) == hits(m, i, j),
    decreases i - r,
{
    if r < i {
        lemma_fall(m, r + 1, i, j);
    }
}

/// Every splitter met lies on the grid.
pub proof fn lemma_hits_on_grid(m: Seq<Seq<char>>, i: int, j: int)
    requires
        0 <= i,
        0 <= j < m[0].len(),
    ensures
        forall|a: int, b: int|
            #[trigger] hits(m, i, j).contains((a, b)) ==> i <= a < m.len() && 0 <= b < m[0].len()
                && splitter(m, a, b),
    decreases m.len() - i,
{
    if i < m.len() {
        if splitter(m, i, j) {
            if j >= 2 {
                lemma_hits_on_grid(m, i + 1, j - 1);
            }
            if j + 1 < m[0].len() {
                lemma_hits_on_grid(m, i + 1, j + 1);
            }
            assert forall|a: int, b: int| #[trigger] hits(m, i, j).contains((a, b)) implies i <= a
                < m.len() && 0 <= b < m[0].len() && splitter(m, a, b) by {
                if (a, b) != (i, j) {
                    if j >= 2 && hits(m, i + 1, j - 1).contains((a, b)) {
                    } else {
                        assert(j + 1 < m[0].len() && hits(m, i + 1, j + 1).contains((a, b)));
                    }
                }
            }
        } else {
            lemma_hits_on_grid(m, i + 1, j);
            assert forall|a: int, b: int| #[trigger] hits(m, i, j).contains((a, b)) implies i <= a
                < m.len() && 0 <= b < m[0].len() && splitter(m, a, b) by {
                assert(hits(m, i + 1, j).contains((a, b)));
            }
        }
    } else {
        assert forall|a: int, b: int| #[trigger] hits(m, i, j).contains((a, b)) implies i <= a
            < m.len() && 0 <= b < m[0].len() && splitter(m, a, b) by {
            assert(hits(m, i, j) == Set::<(int, int)>::empty());
        }
    }
}

/// Sets the mark at `(r, c)`.
fn mark(g: &mut Vec<Vec<bool>>, r: usize, c: usize)
    requires
        r < old(g)@.len(),
        c < old(g)@[r as int]@.len(),
    ensures
        final(g)@.len() == old(g)@.len(),
        forall|a: int| 0 <= a < old(g)@.len() ==> (#[trigger] final(g)@[a])@.len() == old(g)@[a]@.len(),
        forall|a: int, b: int|
            #[trigger] marked(final(g)@, a, b) <==> marked(old(g)@, a, b) || (a == r && b == c),
{
    g[r][c] = true;
}

/// Follows the beam that enters `(i, j)` down to the first splitter, marks
/// what it visits and the splitter, and follows the beams that go on from
/// there unless their first place was visited before.
pub fn explore(
    i: usize,
    j: usize,
    matrix: &Vec<Vec<char>>,
    splits: &mut Vec<Vec<bool>>,
    visited: &mut Vec<Vec<bool>>,
)
    requires
        well_formed(views(matrix@)),
        spaced(views(matrix@)),
        i < matrix@.len(),
        j < matrix@[0]@.len(),
        !splitter(views(matrix@), i as int, j as int),
        fits_grid(old(splits)@, views(matrix@)),
        fits_grid(old(visited)@, views(matrix@)),
        settled_below(views(matrix@), old(visited)@, old(splits)@, i as int),
    ensures
        fits_grid(final(splits)@, views(matrix@)),
        fits_grid(final(visited)@, views(matrix@)),
        grown(old(visited)@, final(visited)@),
        grown(old(splits)@, final(splits)@),
        marked(final(visited)@, i as int, j as int),
        fresh_below(old(visited)@, final(visited)@, i as int, j as int),
        settled_from(views(matrix@), final(visited)@, final(splits)@, i as int, j as int),
        only_hits(views(matrix@), old(splits)@, final(splits)@, i as int, j as int),
    decreases matrix@.len() - i,
{
    let ghost m = views(matrix@);
    let ghost v0 = visited@;
    let ghost s0 = splits@;
    let n: usize = matrix.len();
    assert(m[0] == matrix@[0]@);
    let cols: usize = matrix[0].len();
    let mut r: usize = i;
    while r < n
        invariant
            m == views(matrix@),
            well_formed(m),
            spaced(m),
            n == m.len(),
            cols == m[0].len(),
            i <= r <= n,
            j < cols,
            fits_grid(splits@, m),
            fits_grid(visited@, m),
            splits@ == s0,
            v0 == old(visited)@,
            s0 == old(splits)@,
            !splitter(m, i as int, j as int),
            grown(v0, visited@),
            settled_below(m, v0, s0, i as int),
            forall|k: int| i <= k < r ==> !#[trigger] splitter(m, k, j as int),
            forall|k: int| i <= k < r ==> #[trigger] marked(visited@, k, j as int),
            forall|a: int, b: int|
                #[trigger] marked(visited@, a, b) && !marked(v0, a, b) ==> b == j && i <= a < r,
        decreases n - r,
    {
        let ghost v1 = visited@;
        mark(visited, r, j);
        assert(m[r as int] == matrix@[r as int]@);
        if matrix[r][j] == '^' {
            assert(splitter(m, r as int, j as int));
            assert(r > i);
            mark(splits, r, j);
            let ghost s1 = splits@;
            let ghost v2 = visited@;
            proof {
                assert(grown(s0, s1));
                assert(grown(v0, v2)) by {
                    assert forall|a: int, b: int| #[trigger] marked(v0, a, b) implies marked(
                        v2,
                        a,
                        b,
                    ) by {
                        assert(marked(v1, a, b));
                    }
                }
                // every place visited below row `r` was visited at the start
                assert forall|a: int, b: int| #[trigger] marked(v2, a, b) && a > r implies closed(
                    m,
                    s1,
                    a,
                    b,
                ) by {
                    assert(marked(v1, a, b));
                    assert(marked(v0, a, b));
                    lemma_closed_grows(m, s0, s1, a, b);
                }
            }
            // the beam to the left
            if j >= 2 {
                if !visited[r][j - 1] {
                    explore(r, j - 1, matrix, splits, visited);
                } else {
                    proof {
                        assert(marked(v2, r as int, j - 1));
                        assert(marked(v1, r as int, j - 1));
                        assert(marked(v0, r as int, j - 1));
                        lemma_closed_grows(m, s0, s1, r as int, j - 1);
                    }
                }
            }
            let ghost s2 = splits@;
            let ghost v3 = visited@;
            proof {
                assert(grown(s1, s2));
                assert(grown(v2, v3));
                assert(fresh_below(v2, v3, r as int, j - 1));
                assert(only_hits(m, s1, s2, r as int, j - 1));
                if j >= 2 {
                    assert(closed(m, s2, r as int, j - 1));
                }
                assert forall|a: int, b: int| #[trigger] marked(v3, a, b) && a > r implies closed(
                    m,
                    s2,
                    a,
                    b,
                ) by {
                    if marked(v2, a, b) {
                        lemma_closed_grows(m, s1, s2, a, b);
                    }
                }
            }
            // the beam to the right
            if j + 1 < cols {
                if !visited[r][j + 1] {
                    explore(r, j + 1, matrix, splits, visited);
                } else {
                    proof {
                        assert(marked(v3, r as int, j + 1));
                        assert(marked(v2, r as int, j + 1));
                        assert(marked(v1, r as int, j + 1));
                        assert(marked(v0, r as int, j + 1));
                        lemma_closed_grows(m, s0, s1, r as int, j + 1);
                        lemma_closed_grows(m, s1, s2, r as int, j + 1);
                    }
                }
            }
            let ghost s3 = splits@;
            let ghost v4 = visited@;
            proof {
                assert(grown(s2, s3));
                assert(grown(v3, v4));
                assert(fresh_below(v3, v4, r as int, j + 1));
                assert(only_hits(m, s2, s3, r as int, j + 1));
                lemma_fall(m, i as int, r as int, j as int);
                if j >= 2 {
                    assert(!splitter(m, r as int, j - 1));
                    lemma_fall(m, r as int, r + 1, j - 1);
                }
                if j + 1 < cols {
                    assert(!splitter(m, r as int, j + 1));
                    lemma_fall(m, r as int, r + 1, j + 1);
                }
                // what the beam from the splitter meets is marked
                assert(closed(m, s3, r as int, j as int)) by {
                    assert forall|a: int, b: int| #[trigger] hits(m, r as int, j as int).contains(
                        (a, b),
                    ) implies marked(s3, a, b) by {
                        if (a, b) == (r as int, j as int) {
                            assert(marked(s1, a, b));
                            assert(marked(s2, a, b));
                        } else if j >= 2 && hits(m, r + 1, j - 1).contains((a, b)) {
                            assert(hits(m, r as int, j - 1).contains((a, b)));
                            assert(marked(s2, a, b));
                        } else {
                            assert(j + 1 < cols && hits(m, r + 1, j + 1).contains((a, b)));
                            assert(hits(m, r as int, j + 1).contains((a, b)));
                        }
                    }
                }
                assert(grown(s0, s3)) by {
                    assert forall|a: int, b: int| #[trigger] marked(s0, a, b) implies marked(
                        s3,
                        a,
                        b,
                    ) by {
                        assert(marked(s1, a, b));
                        assert(marked(s2, a, b));
                    }
                }
                assert(grown(v0, v4)) by {
                    assert forall|a: int, b: int| #[trigger] marked(v0, a, b) implies marked(
                        v4,
                        a,
                        b,
                    ) by {
                        assert(marked(v2, a, b));
                        assert(marked(v3, a, b));
                    }
                }
                assert(marked(v4, i as int, j as int)) by {
                    assert(marked(v2, i as int, j as int)) by {
                        if i < r {
                            assert(marked(v1, i as int, j as int));
                        }
                    }
                    assert(marked(v3, i as int, j as int));
                }
                assert(fresh_below(v0, v4, i as int, j as int)) by {
                    assert forall|a: int, b: int| #[trigger] marked(v4, a, b) && !marked(
                        v0,
                        a,
                        b,
                    ) implies a > i || (a == i && b == j) by {
                        if marked(v3, a, b) {
                            if marked(v2, a, b) {
                                if marked(v1, a, b) {
                                }
                            }
                        }
                    }
                }
                assert(settled_from(m, v4, s3, i as int, j as int)) by {
                    assert forall|a: int, b: int| #[trigger] marked(v4, a, b) && (a > i || (a == i
                        && b == j)) implies closed(m, s3, a, b) by {
                        if b == j && i <= a <= r {
                            lemma_fall(m, a, r as int, j as int);
                        } else if !marked(v3, a, b) {
                            // new with the right beam
                        } else if !marked(v2, a, b) {
                            // new with the left beam
                            lemma_closed_grows(m, s2, s3, a, b);
                        } else {
                            assert(marked(v1, a, b));
                            assert(marked(v0, a, b));
                            lemma_closed_grows(m, s0, s3, a, b);
                        }
                    }
                }
                assert(only_hits(m, s0, s3, i as int, j as int)) by {
                    assert forall|a: int, b: int| #[trigger] marked(s3, a, b) && !marked(
                        s0,
                        a,
                        b,
                    ) implies hits(m, i as int, j as int).contains((a, b)) by {
                        if !marked(s2, a, b) {
                            assert(hits(m, r as int, j + 1).contains((a, b)));
                        } else if !marked(s1, a, b) {
                            assert(hits(m, r as int, j - 1).contains((a, b)));
                        } else {
                            assert(a == r && b == j);
                        }
                    }
                }
            }
            return;
        }
        proof {
            assert(grown(v0, visited@)) by {
                assert forall|a: int, b: int| #[trigger] marked(v0, a, b) implies marked(
                    visited@,
                    a,
                    b,
                ) by {
                    assert(marked(v1, a, b));
                }
            }
            assert forall|k: int| i <= k < r + 1 implies #[trigger] marked(visited@, k, j as int) by {
                if k < r {
                    assert(marked(v1, k, j as int));
                }
            }
            assert forall|a: int, b: int| #[trigger] marked(visited@, a, b) && !marked(
                v0,
                a,
                b,
            ) implies b == j && i <= a < r + 1 by {
                if marked(v1, a, b) {
                }
            }
        }
        r += 1;
    }
    proof {
        lemma_fall(m, i as int, n as int, j as int);
        assert(settled_from(m, visited@, splits@, i as int, j as int)) by {
            assert forall|a: int, b: int| #[trigger] marked(visited@, a, b) && (a > i || (a == i
                && b == j)) implies closed(m, splits@, a, b) by {
                if marked(v0, a, b) && a > i {
                } else {
                    lemma_fall(m, a, n as int, j as int);
                }
            }
        }
    }
}

// ---------------------------------------------------------------------------
// Timelines
// ---------------------------------------------------------------------------

/// Number of ways in which a particle that enters `(i, j)` from above can
/// fall out of the grid, when at every splitter it goes on either from the
/// place to the left or from the place to the right, as far as the grid
/// reaches.
pub open spec fn timelines(m: Seq<Seq<char>>, i: int, j: int) -> int
    decreases m.len() - i,
{
    if i < 0 || i >= m.len() {
        1
    } else if splitter(m, i, j) {
        let left = if j >= 1 {
            timelines(m, i + 1, j - 1)
        } else {
            0
        };
        let right = if j + 1 < m[0].len() {
            timelines(m, i + 1, j + 1)
        } else {
            0
        };
        left + right
    } else {
        timelines(m, i + 1, j)
    }
}

/// The number of timelines is never negative.
pub proof fn lemma_timelines_nonnegative(m: Seq<Seq<char>>, i: int, j: int)
    ensures
        0 <= timelines(m, i, j),
    decreases m.len() - i,
{
    if 0 <= i < m.len() {
        lemma_timelines_nonnegative(m, i + 1, j - 1);
        lemma_timelines_nonnegative(m, i + 1, j + 1);
        lemma_timelines_nonnegative(m, i + 1, j);
    }
}

/// Through places without splitter the timelines are those further down.
pub proof fn lemma_timelines_fall(m: Seq<Seq<char>>, r: int, i: int, j: int)
    requires
        0 <= r <= i <= m.len(),
        forall|k: int| r <= k < i ==> !#[trigger] splitter(m, k, j),
    ensures
        timelines(m, r, j) == timelines(m, i, j),
    decreases i - r,
{
    if r < i {
        lemma_timelines_fall(m, r + 1, i, j);
    }
}

/// The table of known counts has a row more than the grid, is as wide as
/// the grid's first row, and every count in it is right.
pub open spec fn memo_ok(solutions: Seq<Vec<Option<i64>>>, m: Seq<Seq<char>>) -> bool {
    &&& solutions.len() == m.len() + 1
    &&& forall|r: int| 0 <= r < solutions.len() ==> (#[trigger] solutions[r])@.len() == m[0].len()
    &&& forall|r: int, c: int|
        0 <= r < solutions.len() && 0 <= c < m[0].len() ==> match #[trigger] solutions[r]@[c] {
            Some(v) => v == timelines(m, r, c),
            None => true,
        }
}

/// The table `after` is the table `before` with the count `value` at place
/// `(r, c)`: as many rows, each as long as before, and every other entry
/// as it was.
pub open spec fn noted(
    before: Seq<Vec<Option<i64>>>,
    after: Seq<Vec<Option<i64>>>,
    r: int,
    c: int,
    value: i64,
) -> bool {
    &&& after.len() == before.len()
    &&& forall|a: int| 0 <= a < before.len() ==> (#[trigger] after[a])@.len() == before[a]@.len()
    &&& forall|a: int, b: int|
        0 <= a < before.len() && 0 <= b < before[a]@.len() ==> #[trigger] after[a]@[b] == if a == r
            && b == c {
            Some(value)
        } else {
            before[a]@[b]
        }
}

/// Notes a count in the table: the entry at `(r, c)` becomes `value`, and
/// nothing else changes.
fn note(solutions: &mut Vec<Vec<Option<i64>>>, r: usize, c: usize, value: i64, Ghost(m): Ghost<Seq<Seq<char>>>)
    requires
        memo_ok(old(solutions)@, m),
        r <= m.len(),
        c < m[0].len(),
        value == timelines(m, r as int, c as int),
    ensures
        noted(old(solutions)@, final(solutions)@, r as int, c as int, value),
        final(solutions)@[r as int]@[c as int] == Some(value),
        memo_ok(final(solutions)@, m),
{
    solutions[r][c] = Some(value);
}

/// Counts the timelines of a particle that enters `(i, j)`, with a table of
/// the counts found on the way. `None` where an `i64` cannot hold the count.
pub fn get_all_paths(
    i: usize,
    j: usize,
    matrix: &Vec<Vec<char>>,
    solutions: &mut Vec<Vec<Option<i64>>>,
) -> (res: Option<i64>)
    requires
        well_formed(views(matrix@)),
        spaced(views(matrix@)),
        i <= matrix@.len(),
        j < matrix@[0]@.len(),
        i < matrix@.len() ==> !splitter(views(matrix@), i as int, j as int),
        memo_ok(old(solutions)@, views(matrix@)),
    ensures
        memo_ok(final(solutions)@, views(matrix@)),
        match res {
            Some(v) => v == timelines(views(matrix@), i as int, j as int),
            None => timelines(views(matrix@), i as int, j as int) > i64::MAX,
        },
    decreases matrix@.len() - i,
{
    let ghost m = views(matrix@);
    assert(m[0] == matrix@[0]@);
    match solutions[i][j] {
        Some(v) => {
            return Some(v);
        },
        None => {},
    }
    let n: usize = matrix.len();
    let cols: usize = matrix[0].len();
    let mut r: usize = i;
    while r < n
        invariant
            m == views(matrix@),
            well_formed(m),
            spaced(m),
            n == m.len(),
            cols == m[0].len(),
            i <= r <= n,
            j < cols,
            i < n ==> !splitter(m, i as int, j as int),
            memo_ok(solutions@, m),
            forall|k: int| i <= k < r ==> !#[trigger] splitter(m, k, j as int),
        decreases n - r,
    {
        assert(m[r as int] == matrix@[r as int]@);
        if matrix[r][j] == '^' {
            assert(splitter(m, r as int, j as int));
            assert(r > i);
            proof {
                lemma_timelines_fall(m, i as int, r as int, j as int);
                lemma_timelines_nonnegative(m, r + 1, j - 1);
                lemma_timelines_nonnegative(m, r + 1, j + 1);
                if j >= 1 {
                    assert(!splitter(m, r as int, j - 1));
                    lemma_timelines_fall(m, r as int, r + 1, j - 1);
                }
                if j + 1 < cols {
                    assert(!splitter(m, r as int, j + 1));
                    lemma_timelines_fall(m, r as int, r + 1, j + 1);
                }
            }
            let mut res: i64 = 0;
            if j >= 1 {
                let partial_sol: i64 = match get_all_paths(r, j - 1, matrix, solutions) {
                    Some(v) => v,
                    None => {
                        return None;
                    },
                };
                note(solutions, r, j - 1, partial_sol, Ghost(m));
                res = partial_sol;
            }
            if j + 1 < cols {
                let partial_sol: i64 = match get_all_paths(r, j + 1, matrix, solutions) {
                    Some(v) => v,
                    None => {
                        return None;
                    },
                };
                note(solutions, r, j + 1, partial_sol, Ghost(m));
                res = match res.checked_add(partial_sol) {
                    Some(v) => v,
                    None => {
                        return None;
                    },
                };
            }
            return Some(res);
        }
        r += 1;
    }
    proof {
        lemma_timelines_fall(m, i as int, n as int, j as int);
    }
    note(solutions, n, j, 1, Ghost(m));
    Some(1)
}

/// A table without a count for a grid with `n` rows and `cols` columns.
fn empty_table(n: usize, cols: usize, Ghost(m): Ghost<Seq<Seq<char>>>) -> (solutions: Vec<Vec<Option<i64>>>)
    requires
        n == m.len(),
        cols == m[0].len(),
        n < usize::MAX,
    ensures
        memo_ok(solutions@, m),
{
    let mut solutions: Vec<Vec<Option<i64>>> = Vec::new();
    let mut r: usize = 0;
    while r < n + 1
        invariant
            n < usize::MAX,
            r <= n + 1,
            solutions@.len() == r,
            forall|k: int| 0 <= k < r ==> (#[trigger] solutions@[k])@.len() == cols,
            forall|k: int, c: int|
                0 <= k < r && 0 <= c < cols ==> (#[trigger] solutions@[k]@[c]) is None,
        decreases n + 1 - r,
    {
        let mut row: Vec<Option<i64>> = Vec::new();
        let mut c: usize = 0;
        while c < cols
            invariant
                c <= cols,
                row@.len() == c,
                forall|k: int| 0 <= k < c ==> (#[trigger] row@[k]) is None,
            decreases cols - c,
        {
            row.push(None);
            c += 1;
        }
        solutions.push(row);
        r += 1;
    }
    solutions
}

/// A grid of marks without a mark, `n` rows of `cols` places.
fn blank_marks(n: usize, cols: usize) -> (g: Vec<Vec<bool>>)
    ensures
        g@.len() == n,
        forall|r: int| 0 <= r < n ==> (#[trigger] g@[r])@.len() == cols,
        forall|r: int, c: int| !#[trigger] marked(g@, r, c),
{
    let mut g: Vec<Vec<bool>> = Vec::new();
    let mut r: usize = 0;
    while r < n
        invariant
            r <= n,
            g@.len() == r,
            forall|k: int| 0 <= k < r ==> (#[trigger] g@[k])@.len() == cols,
            forall|k: int, c: int| !#[trigger] marked(g@, k, c),
        decreases n - r,
    {
        let mut row: Vec<bool> = Vec::new();
        let mut c: usize = 0;
        while c < cols
            invariant
                c <= cols,
                row@.len() == c,
                forall|k: int| 0 <= k < c ==> !#[trigger] row@[k],
            decreases cols - c,
        {
            row.push(false);
            c += 1;
        }
        let ghost before = g@;
        g.push(row);
        assert forall|k: int, c: int| !#[trigger] marked(g@, k, c) by {
            if marked(g@, k, c) {
                if k < r {
                    assert(g@[k] == before[k]);
                    assert(marked(before, k, c));
                }
            }
        }
        r += 1;
    }
    g
}

/// Decides whether a grid with a row is well formed.
pub fn check_rows(matrix: &Vec<Vec<char>>) -> (ok: bool)
    ensures
        ok == well_formed(views(matrix@)),
{
    if matrix.len() == 0 {
        return false;
    }
    let cols: usize = matrix[0].len();
    assert(views(matrix@)[0] == matrix@[0]@);
    let mut r: usize = 0;
    while r < matrix.len()
        invariant
            r <= matrix@.len(),
            matrix@.len() > 0,
            cols == views(matrix@)[0].len(),
            forall|k: int| 0 <= k < r ==> (#[trigger] views(matrix@)[k]).len() >= cols,
        decreases matrix.len() - r,
    {
        assert(views(matrix@)[r as int] == matrix@[r as int]@);
        if matrix[r].len() < cols {
            return false;
        }
        r += 1;
    }
    true
}

/// Decides whether the splitters of a well-formed grid stand apart.
pub fn check_spaced(matrix: &Vec<Vec<char>>) -> (ok: bool)
    requires
        well_formed(views(matrix@)),
    ensures
        ok == spaced(views(matrix@)),
{
    let ghost m = views(matrix@);
    let n: usize = matrix.len();
    assert(m[0] == matrix@[0]@);
    let cols: usize = matrix[0].len();
    let mut i: usize = 0;
    while i < n
        invariant
            m == views(matrix@),
            well_formed(m),
            n == m.len(),
            cols == m[0].len(),
            i <= n,
            forall|a: int, b: int|
                0 <= a < i && 0 <= b && b + 1 < cols ==> !(#[trigger] splitter(m, a, b)
                    && splitter(m, a, b + 1)),
            forall|a: int| 0 <= a < i && 0 < cols ==> !#[trigger] splitter(m, a, 0),
        decreases n - i,
    {
        assert(m[i as int] == matrix@[i as int]@);
        if cols > 0 && matrix[i][0] == '^' {
            assert(splitter(m, i as int, 0));
            return false;
        }
        let mut j: usize = 0;
        while j < cols && j + 1 < cols
            invariant
                m == views(matrix@),
                well_formed(m),
                n == m.len(),
                cols == m[0].len(),
                i < n,
                m[i as int] == matrix@[i as int]@,
                forall|b: int|
                    0 <= b < j && b + 1 < cols ==> !(#[trigger] splitter(m, i as int, b)
                        && splitter(m, i as int, b + 1)),
            decreases cols - j,
        {
            if matrix[i][j] == '^' && matrix[i][j + 1] == '^' {
                assert(splitter(m, i as int, j as int) && splitter(m, i as int, j + 1));
                return false;
            }
            j += 1;
        }
        i += 1;
    }
    true
}

// ---------------------------------------------------------------------------
// The whole manifold
// ---------------------------------------------------------------------------

/// Place `(r, c)` is a source of beams that comes before `(i, j)` when the
/// grid is read row by row.
pub open spec fn source_before(m: Seq<Seq<char>>, r: int, c: int, i: int, j: int) -> bool {
    0 <= r < m.len() && 0 <= c < m[0].len() && m[r][c] == 'S' && (r < i || (r == i && c < j))
}

/// The splitter at `(a, b)` is met by a beam from a source before `(i, j)`.
pub open spec fn hit_before(m: Seq<Seq<char>>, a: int, b: int, i: int, j: int) -> bool {
    exists|r: int, c: int| #[trigger] source_before(m, r, c, i, j) && hits(m, r, c).contains((a, b))
}

/// The splitter at `(a, b)` is met by a beam from some source.
pub open spec fn is_hit(m: Seq<Seq<char>>, a: int, b: int) -> bool {
    hit_before(m, a, b, m.len() as int, 0)
}

/// Number of splitters met among the first `b` places of row `a`.
pub open spec fn hits_in_row(m: Seq<Seq<char>>, a: int, b: int) -> int
    decreases b,
{
    if b <= 0 {
        0
    } else {
        hits_in_row(m, a, b - 1) + if is_hit(m, a, b - 1) {
            1int
        } else {
            0int
        }
    }
}

/// Number of splitters met in the first `a` rows.
pub open spec fn hits_in_rows(m: Seq<Seq<char>>, a: int) -> int
    decreases a,
{
    if a <= 0 {
        0
    } else {
        hits_in_rows(m, a - 1) + hits_in_row(m, a - 1, m[0].len() as int)
    }
}

/// Number of splitters that the beams from the sources meet.
pub open spec fn split_count(m: Seq<Seq<char>>) -> int {
    hits_in_rows(m, m.len() as int)
}

/// The counts never shrink.
pub proof fn lemma_hit_counts(m: Seq<Seq<char>>, a: int, b: int)
    ensures
        0 <= hits_in_row(m, a, b),
        0 <= hits_in_rows(m, a),
    decreases a, b,
{
    if b > 0 {
        lemma_hit_counts(m, a, b - 1);
    }
    if a > 0 {
        lemma_hit_counts(m, a - 1, m[0].len() as int);
        lemma_hit_counts(m, a - 1, 0);
    }
}

/// Number of marks, unless an `i64` cannot hold it.
fn count_marks(splits: &Vec<Vec<bool>>, Ghost(m): Ghost<Seq<Seq<char>>>) -> (count: Option<i64>)
    requires
        m.len() > 0,
        fits_grid(splits@, m),
        forall|a: int, b: int|
            0 <= a < m.len() && 0 <= b < m[0].len() ==> (#[trigger] marked(splits@, a, b) <==> is_hit(
                m,
                a,
                b,
            )),
    ensures
        match count {
            Some(v) => v == split_count(m),
            None => split_count(m) > i64::MAX,
        },
{
    let n: usize = splits.len();
    let cols: usize = splits[0].len();
    let mut count: i64 = 0;
    let mut a: usize = 0;
    while a < n
        invariant
            n == m.len(),
            cols == m[0].len(),
            fits_grid(splits@, m),
            forall|x: int, y: int|
                0 <= x < m.len() && 0 <= y < m[0].len() ==> (#[trigger] marked(splits@, x, y)
                    <==> is_hit(m, x, y)),
            a <= n,
            0 <= count,
            count == hits_in_rows(m, a as int),
        decreases n - a,
    {
        let mut b: usize = 0;
        while b < cols
            invariant
                n == m.len(),
                cols == m[0].len(),
                fits_grid(splits@, m),
                forall|x: int, y: int|
                    0 <= x < m.len() && 0 <= y < m[0].len() ==> (#[trigger] marked(splits@, x, y)
                        <==> is_hit(m, x, y)),
                a < n,
                b <= cols,
                0 <= count,
                count == hits_in_rows(m, a as int) + hits_in_row(m, a as int, b as int),
            decreases cols - b,
        {
            assert(marked(splits@, a as int, b as int) <==> is_hit(m, a as int, b as int));
            if splits[a][b] {
                if count == i64::MAX {
                    proof {
                        lemma_rows_grow(m, a + 1, n as int);
                        lemma_row_grows(m, a as int, b + 1, cols as int);
                    }
                    return None;
                }
                count += 1;
            }
            b += 1;
        }
        a += 1;
    }
    Some(count)
}

/// A longer stretch of a row holds no fewer splitters met.
pub proof fn lemma_row_grows(m: Seq<Seq<char>>, a: int, b: int, c: int)
    requires
        b <= c,
    ensures
        hits_in_row(m, a, b) <= hits_in_row(m, a, c),
    decreases c - b,
{
    if b < c {
        lemma_row_grows(m, a, b, c - 1);
    }
}

/// More rows hold no fewer splitters met.
pub proof fn lemma_rows_grow(m: Seq<Seq<char>>, a: int, c: int)
    requires
        a <= c,
    ensures
        hits_in_rows(m, a) <= hits_in_rows(m, c),
    decreases c - a,
{
    if a < c {
        lemma_rows_grow(m, a, c - 1);
        lemma_hit_counts(m, c - 1, m[0].len() as int);
    }
}

/// What `count_splits` promises of its result for the grid `m`.
pub open spec fn count_result(m: Seq<Seq<char>>, res: Result<i64, ManifoldError>) -> bool {
    match res {
        Ok(v) => well_formed(m) && spaced(m) && v == split_count(m),
        Err(ManifoldError::Empty) => m.len() == 0,
        Err(ManifoldError::ShortRow) => m.len() > 0 && !well_formed(m),
        Err(ManifoldError::CrowdedSplitters) => well_formed(m) && !spaced(m),
        Err(ManifoldError::Overflow) => well_formed(m) && spaced(m) && split_count(m) > i64::MAX,
    }
}

/// Number of splitters that the beams from the sources `S` of the grid meet.
pub fn count_splits(matrix: &Vec<Vec<char>>) -> (res: Result<i64, ManifoldError>)
    ensures
        count_result(views(matrix@), res),
{
    let ghost m = views(matrix@);
    let n: usize = matrix.len();
    if n == 0 {
        return Err(ManifoldError::Empty);
    }
    if !check_rows(matrix) {
        return Err(ManifoldError::ShortRow);
    }
    if !check_spaced(matrix) {
        return Err(ManifoldError::CrowdedSplitters);
    }
    assert(m[0] == matrix@[0]@);
    let cols: usize = matrix[0].len();
    let mut splits: Vec<Vec<bool>> = blank_marks(n, cols);
    let mut visited: Vec<Vec<bool>> = blank_marks(n, cols);
    let mut i: usize = 0;
    while i < n
        invariant
            m == views(matrix@),
            well_formed(m),
            spaced(m),
            n == m.len(),
            cols == m[0].len(),
            i <= n,
            fits_grid(splits@, m),
            fits_grid(visited@, m),
            settled_below(m, visited@, splits@, i - 1),
            forall|r: int, c: int| #[trigger] source_before(m, r, c, i as int, 0) ==> closed(m, splits@, r, c),
            forall|a: int, b: int| #[trigger] marked(splits@, a, b) ==> hit_before(m, a, b, i as int, 0),
        decreases n - i,
    {
        let mut j: usize = 0;
        while j < cols
            invariant
                m == views(matrix@),
                well_formed(m),
                spaced(m),
                n == m.len(),
                cols == m[0].len(),
                i < n,
                j <= cols,
                fits_grid(splits@, m),
                fits_grid(visited@, m),
                settled_below(m, visited@, splits@, i as int),
                forall|r: int, c: int|
                    #[trigger] source_before(m, r, c, i as int, j as int) ==> closed(
                        m,
                        splits@,
                        r,
                        c,
                    ),
                forall|a: int, b: int|
                    #[trigger] marked(splits@, a, b) ==> hit_before(m, a, b, i as int, j as int),
            decreases cols - j,
        {
            assert(m[i as int] == matrix@[i as int]@);
            let ghost s0 = splits@;
            if matrix[i][j] == 'S' {
                assert(!splitter(m, i as int, j as int));
                explore(i, j, matrix, &mut splits, &mut visited);
                proof {
                    assert forall|r: int, c: int| #[trigger]
                        source_before(m, r, c, i as int, j + 1) implies closed(m, splits@, r, c) by {
                        if r == i && c == j {
                            assert(marked(visited@, i as int, j as int));
                        } else {
                            assert(source_before(m, r, c, i as int, j as int));
                            lemma_closed_grows(m, s0, splits@, r, c);
                        }
                    }
                    assert forall|a: int, b: int| #[trigger] marked(splits@, a, b) implies hit_before(
                        m,
                        a,
                        b,
                        i as int,
                        j + 1,
                    ) by {
                        if marked(s0, a, b) {
                            let (r, c) = choose|r: int, c: int| #[trigger]
                                source_before(m, r, c, i as int, j as int) && hits(m, r, c).contains(
                                    (a, b),
                                );
                            assert(source_before(m, r, c, i as int, j + 1));
                        } else {
                            assert(source_before(m, i as int, j as int, i as int, j + 1));
                        }
                    }
                }
            } else {
                proof {
                    assert forall|r: int, c: int| #[trigger]
                        source_before(m, r, c, i as int, j + 1) implies closed(m, splits@, r, c) by {
                        assert(source_before(m, r, c, i as int, j as int));
                    }
                    assert forall|a: int, b: int| #[trigger] marked(splits@, a, b) implies hit_before(
                        m,
                        a,
                        b,
                        i as int,
                        j + 1,
                    ) by {
                        let (r, c) = choose|r: int, c: int| #[trigger]
                            source_before(m, r, c, i as int, j as int) && hits(m, r, c).contains(
                                (a, b),
                            );
                        assert(source_before(m, r, c, i as int, j + 1));
                    }
                }
            }
            j += 1;
        }
        proof {
            assert forall|r: int, c: int| #[trigger] source_before(m, r, c, i + 1, 0) implies closed(
                m,
                splits@,
                r,
                c,
            ) by {
                assert(source_before(m, r, c, i as int, cols as int));
            }
            assert forall|a: int, b: int| #[trigger] marked(splits@, a, b) implies hit_before(
                m,
                a,
                b,
                i + 1,
                0,
            ) by {
                let (r, c) = choose|r: int, c: int| #[trigger]
                    source_before(m, r, c, i as int, cols as int) && hits(m, r, c).contains((a, b));
                assert(source_before(m, r, c, i + 1, 0));
            }
        }
        i += 1;
    }
    proof {
        assert forall|a: int, b: int| 0 <= a < m.len() && 0 <= b < m[0].len() implies (
        #[trigger] marked(splits@, a, b) <==> is_hit(m, a, b)) by {
            if is_hit(m, a, b) {
                let (r, c) = choose|r: int, c: int| #[trigger]
                    source_before(m, r, c, m.len() as int, 0) && hits(m, r, c).contains((a, b));
                assert(closed(m, splits@, r, c));
            }
        }
    }
    match count_marks(&splits, Ghost(m)) {
        Some(v) => Ok(v),
        None => Err(ManifoldError::Overflow),
    }
}

/// Number of timelines of a particle that starts at `(i, j)`, unless an
/// `i64` cannot hold it.
pub fn count_timelines(matrix: &Vec<Vec<char>>, i: usize, j: usize) -> (res: Option<i64>)
    requires
        well_formed(views(matrix@)),
        spaced(views(matrix@)),
        matrix@.len() < usize::MAX,
        i < matrix@.len(),
        j < matrix@[0]@.len(),
        !splitter(views(matrix@), i as int, j as int),
    ensures
        match res {
            Some(v) => v == timelines(views(matrix@), i as int, j as int),
            None => timelines(views(matrix@), i as int, j as int) > i64::MAX,
        },
{
    let ghost m = views(matrix@);
    assert(m[0] == matrix@[0]@);
    let mut solutions: Vec<Vec<Option<i64>>> = empty_table(
        matrix.len(),
        matrix[0].len(),
        Ghost(m),
    );
    get_all_paths(i, j, matrix, &mut solutions)
}

/// The characters of each line.
pub fn char_rows(lines: &Vec<String>) -> (rows: Vec<Vec<char>>)
    ensures
        views(rows@) == line_views(lines@),
{
    let mut rows: Vec<Vec<char>> = Vec::new();
    let mut i: usize = 0;
    while i < lines.len()
        invariant
            i <= lines.len(),
            rows@.len() == i,
            forall|k: int| 0 <= k < i ==> (#[trigger] rows@[k])@ == lines@[k]@,
        decreases lines.len() - i,
    {
        rows.push(chars_of(lines[i].as_str()));
        i += 1;
    }
    assert(views(rows@) =~= line_views(lines@));
    rows
}

/// Number of splitters that the beams meet in the manifold that the lines
/// draw.
pub fn solve(lines: &Vec<String>) -> (res: Result<i64, ManifoldError>)
    ensures
        count_result(line_views(lines@), res),
{
    let matrix: Vec<Vec<char>> = char_rows(lines);
    count_splits(&matrix)
}

/// A source of beams with the number of timelines of a particle from it.
#[derive(Clone, Copy, Debug, PartialEq, Eq, Structural)]
pub struct SourceCount {
    pub row: usize,
    pub col: usize,
    pub timelines: i64,
}

/// `(r, c)` comes before `(i, j)` when the grid is read row by row.
pub open spec fn reads_before(r: int, c: int, i: int, j: int) -> bool {
    r < i || (r == i && c < j)
}

/// The entry names a source of the grid and its number of timelines.
pub open spec fn entry_ok(m: Seq<Seq<char>>, e: SourceCount) -> bool {
    &&& e.row < m.len()
    &&& e.col < m[0].len()
    &&& m[e.row as int][e.col as int] == 'S'
    &&& e.timelines == timelines(m, e.row as int, e.col as int)
}

/// The list has an entry for place `(r, c)`.
pub open spec fn names(list: Seq<SourceCount>, r: int, c: int) -> bool {
    exists|k: int| 0 <= k < list.len() && (#[trigger] list[k]).row == r && list[k].col == c
}

/// `list` names the sources before `(i, j)`, each once and in reading
/// order, each with its number of timelines.
pub open spec fn lists_sources(m: Seq<Seq<char>>, list: Seq<SourceCount>, i: int, j: int) -> bool {
    &&& forall|k: int|
        0 <= k < list.len() ==> entry_ok(m, #[trigger] list[k]) && reads_before(
            list[k].row as int,
            list[k].col as int,
            i,
            j,
        )
    &&& forall|k: int, l: int|
        0 <= k < l < list.len() ==> reads_before(
            (#[trigger] list[k]).row as int,
            list[k].col as int,
            (#[trigger] list[l]).row as int,
            list[l].col as int,
        )
    &&& forall|r: int, c: int| #[trigger] source_before(m, r, c, i, j) ==> names(list, r, c)
}

/// What `count_all_timelines` promises of its result for the grid `m`.
pub open spec fn timelines_result(
    m: Seq<Seq<char>>,
    res: Result<Vec<SourceCount>, ManifoldError>,
) -> bool {
    match res {
        Ok(list) => well_formed(m) && spaced(m) && lists_sources(m, list@, m.len() as int, 0),
        Err(ManifoldError::Empty) => m.len() == 0,
        Err(ManifoldError::ShortRow) => m.len() > 0 && !well_formed(m),
        Err(ManifoldError::CrowdedSplitters) => well_formed(m) && !spaced(m),
        Err(ManifoldError::Overflow) => well_formed(m) && spaced(m) && (m.len() >= usize::MAX
            || exists|r: int, c: int| #[trigger]
            source_before(m, r, c, m.len() as int, 0) && timelines(m, r, c) > i64::MAX),
    }
}

/// For every source `S` of the grid, in reading order, the number of
/// timelines of a particle from it.
pub fn count_all_timelines(matrix: &Vec<Vec<char>>) -> (res: Result<Vec<SourceCount>, ManifoldError>)
    ensures
        timelines_result(views(matrix@), res),
{
    let ghost m = views(matrix@);
    let n: usize = matrix.len();
    if n == 0 {
        return Err(ManifoldError::Empty);
    }
    if !check_rows(matrix) {
        return Err(ManifoldError::ShortRow);
    }
    if !check_spaced(matrix) {
        return Err(ManifoldError::CrowdedSplitters);
    }
    if n == usize::MAX {
        return Err(ManifoldError::Overflow);
    }
    assert(m[0] == matrix@[0]@);
    let cols: usize = matrix[0].len();
    let mut list: Vec<SourceCount> = Vec::new();
    let mut i: usize = 0;
    while i < n
        invariant
            m == views(matrix@),
            well_formed(m),
            spaced(m),
            n == m.len(),
            n < usize::MAX,
            cols == m[0].len(),
            i <= n,
            lists_sources(m, list@, i as int, 0),
        decreases n - i,
    {
        let mut j: usize = 0;
        while j < cols
            invariant
                m == views(matrix@),
                well_formed(m),
                spaced(m),
                n == m.len(),
                n < usize::MAX,
                cols == m[0].len(),
                i < n,
                j <= cols,
                lists_sources(m, list@, i as int, j as int),
            decreases cols - j,
        {
            assert(m[i as int] == matrix@[i as int]@);
            let ghost before = list@;
            if matrix[i][j] == 'S' {
                assert(!splitter(m, i as int, j as int));
                assert(source_before(m, i as int, j as int, m.len() as int, 0));
                match count_timelines(matrix, i, j) {
                    Some(v) => {
                        list.push(SourceCount { row: i, col: j, timelines: v });
                    },
                    None => {
                        return Err(ManifoldError::Overflow);
                    },
                }
                proof {
                    let after = list@;
                    assert forall|k: int| 0 <= k < after.len() implies entry_ok(
                        m,
                        #[trigger] after[k],
                    ) && reads_before(after[k].row as int, after[k].col as int, i as int, j + 1) by {
                        if k < before.len() {
                            assert(after[k] == before[k]);
                        }
                    }
                    assert forall|k: int, l: int| 0 <= k < l < after.len() implies reads_before(
                        (#[trigger] after[k]).row as int,
                        after[k].col as int,
                        (#[trigger] after[l]).row as int,
                        after[l].col as int,
                    ) by {
                        assert(after[k] == before[k]);
                        if l < before.len() {
                            assert(after[l] == before[l]);
                        }
                    }
                    assert forall|r: int, c: int| #[trigger]
                        source_before(m, r, c, i as int, j + 1) implies names(after, r, c) by {
                        if r == i && c == j {
                            assert(after[before.len() as int].row == r);
                        } else {
                            assert(source_before(m, r, c, i as int, j as int));
                            let k = choose|k: int|
                                0 <= k < before.len() && (#[trigger] before[k]).row == r
                                    && before[k].col == c;
                            assert(after[k] == before[k]);
                        }
                    }
                }
            } else {
                proof {
                    assert forall|r: int, c: int| #[trigger]
                        source_before(m, r, c, i as int, j + 1) implies names(before, r, c) by {
                        assert(source_before(m, r, c, i as int, j as int));
                    }
                }
            }
            j += 1;
        }
        proof {
            let l = list@;
            assert forall|r: int, c: int| #[trigger] source_before(m, r, c, i + 1, 0) implies names(
                l,
                r,
                c,
            ) by {
                assert(source_before(m, r, c, i as int, cols as int));
            }
        }
        i += 1;
    }
    Ok(list)
}

} // verus!
