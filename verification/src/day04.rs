//! Rolls of paper on a grid: a roll can be taken where fewer than four of the
//! eight places around it hold a roll.
use crate::text::line_bytes;
use vstd::prelude::*;

verus! {

/// The byte that marks a roll of paper.
pub const BYTE_OF_AT: u8 = 0x40;

/// The byte that marks an empty place.
pub const BYTE_OF_DOT: u8 = 0x2e;

/// Number of rounds after which the clearing stops in any case.
pub const MAX_ROUNDS: usize = 50000;

/// Why a grid has no count.
#[derive(Clone, Copy, Debug, PartialEq, Eq, Structural)]
pub enum GridError {
    /// The grid has no row.
    Empty,
    /// A row is shorter than the first.
    ShortRow,
    /// The count is more than the result type holds.
    Overflow,
}

/// The views of the rows of a grid.
pub open spec fn rows_of(matrix: Seq<Vec<u8>>) -> Seq<Seq<u8>> {
    matrix.map_values(|r: Vec<u8>| r@)
}

/// The grid has a row, and every row is at least as long as the first.
pub open spec fn well_formed(m: Seq<Seq<u8>>) -> bool {
    m.len() > 0 && forall|r: int| 0 <= r < m.len() ==> (#[trigger] m[r]).len() >= m[0].len()
}

/// 1 where place `(r, c)` lies on the grid, within the width of the first
/// row, and holds a roll; else 0.
pub open spec fn roll_at(m: Seq<Seq<u8>>, r: int, c: int) -> int {
    if 0 <= r < m.len() && 0 <= c < m[0].len() && m[r][c] == BYTE_OF_AT {
        1
    } else {
        0
    }
}

/// Number of rolls on the eight places around `(i, j)`.
pub open spec fn neighbours(m: Seq<Seq<u8>>, i: int, j: int) -> int {
    roll_at(m, i - 1, j - 1) + roll_at(m, i, j - 1) + roll_at(m, i + 1, j - 1) + roll_at(
        m,
        i - 1,
        j,
    ) + roll_at(m, i + 1, j) + roll_at(m, i - 1, j + 1) + roll_at(m, i, j + 1) + roll_at(
        m,
        i + 1,
        j + 1,
    )
}

/// Place `(i, j)` holds a roll that can be taken.
pub open spec fn accessible(m: Seq<Seq<u8>>, i: int, j: int) -> bool {
    m[i][j] == BYTE_OF_AT && neighbours(m, i, j) < 4
}

/// Looks at one place: 1 where it is on the grid and holds a roll.
fn roll_count(matrix: &Vec<Vec<u8>>, r: usize, c: usize, n_rows: usize, n_cols: usize) -> (k: usize)
    requires
        well_formed(rows_of(matrix@)),
        n_rows == matrix@.len(),
        n_cols == matrix@[0]@.len(),
    ensures
        k == roll_at(rows_of(matrix@), r as int, c as int),
{
    assert(rows_of(matrix@)[0] == matrix@[0]@);
    if r < n_rows && c < n_cols {
        assert(rows_of(matrix@)[r as int] == matrix@[r as int]@);
        if matrix[r][c] == BYTE_OF_AT {
            1
        } else {
            0
        }
    } else {
        0
    }
}

/// Decides whether fewer than four of the eight places around `(i, j)` hold
/// a roll.
pub fn explore(matrix: &Vec<Vec<u8>>, i: usize, j: usize, n_rows: usize, n_cols: usize) -> (free:
    bool)
    requires
        well_formed(rows_of(matrix@)),
        n_rows == matrix@.len(),
        n_cols == matrix@[0]@.len(),
        i < n_rows,
        j < n_cols,
    ensures
        free == (neighbours(rows_of(matrix@), i as int, j as int) < 4),
{
    let ghost m = rows_of(matrix@);
    let mut count: usize = 0;
    if i > 0 && j > 0 {
        count += roll_count(matrix, i - 1, j - 1, n_rows, n_cols);
    }
    if j > 0 {
        count += roll_count(matrix, i, j - 1, n_rows, n_cols);
    }
    if j > 0 && i + 1 < n_rows {
        count += roll_count(matrix, i + 1, j - 1, n_rows, n_cols);
    }
    if i > 0 {
        count += roll_count(matrix, i - 1, j, n_rows, n_cols);
    }
    if i + 1 < n_rows {
        count += roll_count(matrix, i + 1, j, n_rows, n_cols);
    }
    if i > 0 && j + 1 < n_cols {
        count += roll_count(matrix, i - 1, j + 1, n_rows, n_cols);
    }
    if j + 1 < n_cols {
        count += roll_count(matrix, i, j + 1, n_rows, n_cols);
    }
    if i + 1 < n_rows && j + 1 < n_cols {
        count += roll_count(matrix, i + 1, j + 1, n_rows, n_cols);
    }
    assert(count == neighbours(m, i as int, j as int));
    count < 4
}

/// Number of rolls that can be taken among the first `j` places of row `i`.
pub open spec fn row_accessible(m: Seq<Seq<u8>>, i: int, j: int) -> int
    decreases j,
{
    if j <= 0 {
        0
    } else {
        row_accessible(m, i, j - 1) + if accessible(m, i, j - 1) {
            1int
        } else {
            0int
        }
    }
}

/// Number of rolls that can be taken in the first `i` rows.
pub open spec fn grid_accessible(m: Seq<Seq<u8>>, i: int) -> int
    decreases i,
{
    if i <= 0 {
        0
    } else {
        grid_accessible(m, i - 1) + row_accessible(m, i - 1, m[0].len() as int)
    }
}

/// Number of rolls of the grid that can be taken.
pub open spec fn accessible_count(m: Seq<Seq<u8>>) -> int {
    grid_accessible(m, m.len() as int)
}

/// Every listed position lies on the grid, within the width of the first
/// row.
pub open spec fn on_grid(idxs: Seq<(usize, usize)>, m: Seq<Seq<u8>>) -> bool {
    forall|k: int| 0 <= k < idxs.len() ==> (#[trigger] idxs[k]).0 < m.len() && idxs[k].1 < m[0].len()
}

/// The list names the position `(i, j)`.
pub open spec fn listed(idxs: Seq<(usize, usize)>, i: int, j: int) -> bool {
    exists|k: int| 0 <= k < idxs.len() && (#[trigger] idxs[k]).0 == i && idxs[k].1 == j
}

/// The positions of the rolls that can be taken, row by row.
pub fn accessible_rolls(matrix: &Vec<Vec<u8>>) -> (idxs: Vec<(usize, usize)>)
    requires
        well_formed(rows_of(matrix@)),
    ensures
        idxs@.len() == accessible_count(rows_of(matrix@)),
        on_grid(idxs@, rows_of(matrix@)),
        forall|k: int|
            0 <= k < idxs@.len() ==> accessible(
                rows_of(matrix@),
                (#[trigger] idxs@[k]).0 as int,
                idxs@[k].1 as int,
            ),
        forall|i: int, j: int|
            0 <= i < matrix@.len() && 0 <= j < matrix@[0]@.len() && accessible(
                rows_of(matrix@),
                i,
                j,
            ) ==> #[trigger] listed(idxs@, i, j),
{
    let ghost g = rows_of(matrix@);
    let n: usize = matrix.len();
    assert(g[0] == matrix@[0]@);
    let m: usize = matrix[0].len();
    let mut idxs: Vec<(usize, usize)> = Vec::new();
    let mut i: usize = 0;
    while i < n
        invariant
            g == rows_of(matrix@),
            well_formed(g),
            n == matrix@.len(),
            m == matrix@[0]@.len(),
            m == g[0].len(),
            i <= n,
            idxs@.len() == grid_accessible(g, i as int),
            forall|k: int|
                0 <= k < idxs@.len() ==> (#[trigger] idxs@[k]).0 < i && idxs@[k].1 < m
                    && accessible(g, idxs@[k].0 as int, idxs@[k].1 as int),
            forall|a: int, b: int|
                0 <= a < i && 0 <= b < m && accessible(g, a, b) ==> #[trigger] listed(idxs@, a, b),
        decreases n - i,
    {
        let mut j: usize = 0;
        while j < m
            invariant
                g == rows_of(matrix@),
                well_formed(g),
                n == matrix@.len(),
                m == matrix@[0]@.len(),
                m == g[0].len(),
                i < n,
                j <= m,
                idxs@.len() == grid_accessible(g, i as int) + row_accessible(g, i as int, j as int),
                forall|k: int|
                    0 <= k < idxs@.len() ==> (#[trigger] idxs@[k]).0 <= i && idxs@[k].1 < m
                        && accessible(g, idxs@[k].0 as int, idxs@[k].1 as int),
                forall|a: int, b: int|
                    0 <= a < i && 0 <= b < m && accessible(g, a, b) ==> #[trigger] listed(
                        idxs@,
                        a,
                        b,
                    ),
                forall|b: int|
                    0 <= b < j && accessible(g, i as int, b) ==> #[trigger] listed(
                        idxs@,
                        i as int,
                        b,
                    ),
            decreases m - j,
        {
            assert(g[i as int] == matrix@[i as int]@);
            let ch: u8 = matrix[i][j];
            if ch == BYTE_OF_AT && explore(matrix, i, j, n, m) {
                let ghost before = idxs@;
                idxs.push((i, j));
                proof {
                    assert(idxs@[before.len() as int] == (i, j));
                    assert forall|a: int, b: int| listed(before, a, b) implies listed(idxs@, a, b) by {
                        let k = choose|k: int|
                            0 <= k < before.len() && (#[trigger] before[k]).0 == a && before[k].1
                                == b;
                        assert(idxs@[k] == before[k]);
                    }
                    assert(listed(idxs@, i as int, j as int));
                    assert forall|a: int, b: int|
                        0 <= a < i && 0 <= b < m && accessible(g, a, b) implies #[trigger] listed(
                        idxs@,
                        a,
                        b,
                    ) by {
                        assert(listed(before, a, b));
                    }
                    assert forall|b: int| 0 <= b < j + 1 && accessible(g, i as int, b) implies #[trigger] listed(
                    idxs@, i as int, b) by {
                        if b < j {
                            assert(listed(before, i as int, b));
                        }
                    }
                }
            }
            j += 1;
        }
        i += 1;
    }
    idxs
}

/// Number of rolls that can be taken from the grid that the lines draw.
pub fn solve04(lines: &Vec<String>) -> (res: Result<i64, GridError>)
    ensures
        match res {
            Ok(v) => well_formed(line_bytes(lines@)) && v == accessible_count(line_bytes(lines@)),
            Err(GridError::Empty) => lines@.len() == 0,
            Err(GridError::ShortRow) => lines@.len() > 0 && !well_formed(line_bytes(lines@)),
            Err(GridError::Overflow) => well_formed(line_bytes(lines@)) && accessible_count(
                line_bytes(lines@),
            ) > i64::MAX,
        },
{
    if lines.len() == 0 {
        return Err(GridError::Empty);
    }
    let matrix_bytes: Vec<Vec<u8>> = byte_rows(lines);
    if !check_grid(&matrix_bytes) {
        return Err(GridError::ShortRow);
    }
    let idxs: Vec<(usize, usize)> = accessible_rolls(&matrix_bytes);
    if idxs.len() as u64 > i64::MAX as u64 {
        Err(GridError::Overflow)
    } else {
        Ok(idxs.len() as i64)
    }
}

/// The bytes of each line.
pub fn byte_rows(lines: &Vec<String>) -> (rows: Vec<Vec<u8>>)
    ensures
        rows_of(rows@) == line_bytes(lines@),
{
    let mut rows: Vec<Vec<u8>> = Vec::new();
    let mut i: usize = 0;
    while i < lines.len()
        invariant
            i <= lines.len(),
            rows@.len() == i,
            forall|k: int|
                0 <= k < i ==> (#[trigger] rows@[k])@ == vstd::utf8::encode_utf8(lines@[k]@),
        decreases lines.len() - i,
    {
        let bytes: &[u8] = lines[i].as_str().as_bytes();
        rows.push(vstd::slice::slice_to_vec(bytes));
        i += 1;
    }
    assert(rows_of(rows@) =~= line_bytes(lines@));
    rows
}

/// Decides whether a grid with a row is well formed.
pub fn check_grid(matrix: &Vec<Vec<u8>>) -> (ok: bool)
    ensures
        ok == well_formed(rows_of(matrix@)),
{
    if matrix.len() == 0 {
        return false;
    }
    let cols: usize = matrix[0].len();
    assert(rows_of(matrix@)[0] == matrix@[0]@);
    let mut r: usize = 0;
    while r < matrix.len()
        invariant
            r <= matrix@.len(),
            matrix@.len() > 0,
            cols == rows_of(matrix@)[0].len(),
            forall|k: int| 0 <= k < r ==> (#[trigger] rows_of(matrix@)[k]).len() >= cols,
        decreases matrix.len() - r,
    {
        assert(rows_of(matrix@)[r as int] == matrix@[r as int]@);
        if matrix[r].len() < cols {
            return false;
        }
        r += 1;
    }
    true
}

// ---------------------------------------------------------------------------
// Clearing round after round
// ---------------------------------------------------------------------------

/// The grid after every roll that can be taken has been taken, all at once.
pub open spec fn cleared(m: Seq<Seq<u8>>) -> Seq<Seq<u8>> {
    Seq::new(
        m.len(),
        |i: int|
            Seq::new(
                m[i].len(),
                |j: int|
                    if j < m[0].len() && accessible(m, i, j) {
                        BYTE_OF_DOT
                    } else {
                        m[i][j]
                    },
            ),
    )
}

/// Number of rolls taken in at most `rounds` rounds; the rounds end early
/// when no roll can be taken.
pub open spec fn removed(m: Seq<Seq<u8>>, rounds: int) -> int
    decreases rounds,
{
    if rounds <= 0 || accessible_count(m) == 0 {
        0
    } else {
        accessible_count(m) + removed(cleared(m), rounds - 1)
    }
}

/// The grid after at most `rounds` rounds.
pub open spec fn after_rounds(m: Seq<Seq<u8>>, rounds: int) -> Seq<Seq<u8>>
    decreases rounds,
{
    if rounds <= 0 || accessible_count(m) == 0 {
        m
    } else {
        after_rounds(cleared(m), rounds - 1)
    }
}

/// The counts are never negative.
pub proof fn lemma_counts_nonnegative(m: Seq<Seq<u8>>, i: int, j: int, rounds: int)
    ensures
        0 <= row_accessible(m, i, j),
        0 <= grid_accessible(m, i),
        0 <= removed(m, rounds),
    decreases rounds, i, j,
{
    if j > 0 {
        lemma_counts_nonnegative(m, i, j - 1, rounds);
    }
    if i > 0 {
        lemma_counts_nonnegative(m, i - 1, m[0].len() as int, rounds);
        lemma_counts_nonnegative(m, i - 1, 0, rounds);
    }
    if rounds > 0 {
        lemma_counts_nonnegative(cleared(m), cleared(m).len() as int, 0, rounds - 1);
        lemma_counts_nonnegative(m, m.len() as int, 0, 0);
    }
}

/// The grid `m` with a dot at every listed position.
pub open spec fn without(m: Seq<Seq<u8>>, idxs: Seq<(usize, usize)>) -> Seq<Seq<u8>> {
    Seq::new(
        m.len(),
        |i: int|
            Seq::new(
                m[i].len(),
                |j: int|
                    if listed(idxs, i, j) {
                        BYTE_OF_DOT
                    } else {
                        m[i][j]
                    },
            ),
    )
}

/// Takes the listed rolls off the grid.
fn take_rolls(matrix: &mut Vec<Vec<u8>>, idxs: &Vec<(usize, usize)>)
    requires
        well_formed(rows_of(old(matrix)@)),
        on_grid(idxs@, rows_of(old(matrix)@)),
    ensures
        rows_of(final(matrix)@) == without(rows_of(old(matrix)@), idxs@),
{
    let ghost start = rows_of(matrix@);
    let ghost before = matrix@;
    assert(rows_of(before)[0] == before[0]@);
    let mut k: usize = 0;
    while k < idxs.len()
        invariant
            k <= idxs@.len(),
            well_formed(rows_of(before)),
            matrix@.len() == before.len(),
            on_grid(idxs@, rows_of(before)),
            forall|i: int| 0 <= i < before.len() ==> (#[trigger] matrix@[i])@.len() == before[i]@.len(),
            forall|i: int, j: int|
                0 <= i < before.len() && 0 <= j < before[i]@.len() ==> #[trigger] matrix@[i]@[j]
                    == if listed(idxs@.take(k as int), i, j) {
                    BYTE_OF_DOT
                } else {
                    before[i]@[j]
                },
        decreases idxs.len() - k,
    {
        let (i, j) = idxs[k];
        assert(rows_of(before)[i as int] == before[i as int]@);
        assert(rows_of(before)[0] == before[0]@);
        let ghost prev = matrix@;
        matrix[i][j] = BYTE_OF_DOT;
        proof {
            let done = idxs@.take(k as int);
            let next = idxs@.take(k + 1);
            assert(next == done.push((i, j)));
            assert forall|a: int, b: int|
                0 <= a < before.len() && 0 <= b < before[a]@.len() implies #[trigger] matrix@[a]@[b]
                == if listed(next, a, b) {
                BYTE_OF_DOT
            } else {
                before[a]@[b]
            } by {
                if listed(done, a, b) {
                    let t = choose|t: int|
                        0 <= t < done.len() && (#[trigger] done[t]).0 == a && done[t].1 == b;
                    assert(next[t] == done[t]);
                }
                if a == i && b == j {
                    assert(next[k as int] == (i, j));
                } else if listed(next, a, b) {
                    let t = choose|t: int|
                        0 <= t < next.len() && (#[trigger] next[t]).0 == a && next[t].1 == b;
                    assert(t < k);
                    assert(done[t] == next[t]);
                }
            }
        }
        k += 1;
    }
    assert(idxs@.take(idxs@.len() as int) == idxs@);
    proof {
        let h = rows_of(matrix@);
        assert forall|i: int| 0 <= i < h.len() implies #[trigger] h[i] =~= without(start, idxs@)[i] by {
            assert(h[i] == matrix@[i]@);
            assert(start[i] == before[i]@);
            assert forall|j: int| 0 <= j < h[i].len() implies h[i][j] == without(start, idxs@)[i][j] by {
                assert(matrix@[i]@[j] == if listed(idxs@, i, j) {
                    BYTE_OF_DOT
                } else {
                    before[i]@[j]
                });
            }
        }
        assert(h =~= without(start, idxs@));
    }
}

/// Takes the rolls that can be taken, round after round, until a round finds
/// none or `MAX_ROUNDS` rounds are done; returns how many were taken.
pub fn part2(matrix: &mut Vec<Vec<u8>>) -> (res: Option<usize>)
    requires
        well_formed(rows_of(old(matrix)@)),
    ensures
        match res {
            Some(ans) => ans == removed(rows_of(old(matrix)@), MAX_ROUNDS as int) && rows_of(
                final(matrix)@,
            ) == after_rounds(rows_of(old(matrix)@), MAX_ROUNDS as int),
            None => removed(rows_of(old(matrix)@), MAX_ROUNDS as int) > usize::MAX,
        },
{
    let ghost start = rows_of(matrix@);
    let mut ans: usize = 0;
    let mut round: usize = 0;
    while round < MAX_ROUNDS
        invariant
            round <= MAX_ROUNDS,
            start == rows_of(old(matrix)@),
            well_formed(rows_of(matrix@)),
            removed(start, MAX_ROUNDS as int) == ans + removed(
                rows_of(matrix@),
                MAX_ROUNDS - round,
            ),
            after_rounds(start, MAX_ROUNDS as int) == after_rounds(
                rows_of(matrix@),
                MAX_ROUNDS - round,
            ),
        decreases MAX_ROUNDS - round,
    {
        let ghost g = rows_of(matrix@);
        let idxs: Vec<(usize, usize)> = accessible_rolls(matrix);
        if idxs.len() == 0 {
            return Some(ans);
        }
        proof {
            lemma_counts_nonnegative(cleared(g), 0, 0, MAX_ROUNDS - round - 1);
        }
        match ans.checked_add(idxs.len()) {
            Some(total) => {
                ans = total;
            },
            None => {
                return None;
            },
        }
        let ghost before = matrix@;
        proof {
            assert(g[0] == before[0]@);
        }
        take_rolls(matrix, &idxs);
        proof {
            let h = without(g, idxs@);
            assert forall|i: int| 0 <= i < h.len() implies #[trigger] h[i] =~= cleared(g)[i] by {
                assert forall|j: int| 0 <= j < h[i].len() implies h[i][j] == cleared(g)[i][j] by {
                    if listed(idxs@, i, j) {
                        let k = choose|k: int|
                            0 <= k < idxs@.len() && (#[trigger] idxs@[k]).0 == i && idxs@[k].1 == j;
                        assert(accessible(g, idxs@[k].0 as int, idxs@[k].1 as int));
                    }
                }
            }
            assert(h =~= cleared(g));
        }
        round += 1;
    }
    Some(ans)
}

} // verus!
