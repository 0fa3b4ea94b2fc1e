//! A worksheet of sums and products, read in two ways: row by row with the
//! operators in the last line, and column by column with every column of
//! digits a number.
use crate::text::{
    chars_of, digit_of, is_digit, line_views, parse_i64, read_i64, split_words, trim, trimmed,
    views, words,
};
use vstd::prelude::*;

verus! {

/// Why a worksheet has no result.
#[derive(Clone, Copy, Debug, PartialEq, Eq, Structural)]
pub enum SheetError {
    /// The worksheet has no line.
    Empty,
    /// A row is too short for a column that is asked of it.
    ShortRow,
    /// A number on the way is more than an `i64` holds.
    Overflow,
}

/// `v` where it is an `i64`.
pub open spec fn fit(v: int) -> Option<int> {
    if i64::MIN <= v <= i64::MAX {
        Some(v)
    } else {
        None
    }
}

// ---------------------------------------------------------------------------
// Column by column
// ---------------------------------------------------------------------------

/// The number that the digits of column `col` write, read from the top
/// through the first `r` rows; characters that are no digits are passed
/// over. `None` once the number is no `i64`.
pub open spec fn column_number(m: Seq<Seq<char>>, col: int, r: int) -> Option<int>
    decreases r,
{
    if r <= 0 {
        Some(0)
    } else {
        match column_number(m, col, r - 1) {
            None => None,
            Some(acc) => {
                let c = m[r - 1][col];
                if is_digit(c) {
                    fit(acc * 10 + digit_of(c))
                } else {
                    Some(acc)
                }
            },
        }
    }
}

/// The state of the reading: the total of the blocks that are closed, the
/// value of the block that is open, and whether that block multiplies.
pub struct Tally {
    pub total: int,
    pub block: int,
    pub multiplies: bool,
}

/// The state after the first `c` columns: an operator in the last row
/// closes the open block and opens the next, and a column whose number is
/// not 0 enters the open block. `None` once a number is no `i64`.
pub open spec fn tally(m: Seq<Seq<char>>, c: int) -> Option<Tally>
    decreases c,
{
    if c <= 0 {
        Some(Tally { total: 0, block: 0, multiplies: false })
    } else {
        match tally(m, c - 1) {
            None => None,
            Some(t) => {
                let sign = m[m.len() - 1][c - 1];
                let opened = if sign == '*' {
                    match fit(t.total + t.block) {
                        Some(total) => Some(Tally { total, block: 1, multiplies: true }),
                        None => None,
                    }
                } else if sign == '+' {
                    match fit(t.total + t.block) {
                        Some(total) => Some(Tally { total, block: 0, multiplies: false }),
                        None => None,
                    }
                } else {
                    Some(t)
                };
                match (opened, column_number(m, c - 1, m.len() - 1)) {
                    (Some(o), Some(number)) => if number == 0 {
                        Some(o)
                    } else {
                        match fit(
                            if o.multiplies {
                                o.block * number
                            } else {
                                o.block + number
                            },
                        ) {
                            Some(block) => Some(
                                Tally { total: o.total, block, multiplies: o.multiplies },
                            ),
                            None => None,
                        }
                    },
                    _ => None,
                }
            },
        }
    }
}

/// Every row is at least as long as the first.
pub open spec fn rows_reach(m: Seq<Seq<char>>) -> bool {
    forall|r: int| 0 <= r < m.len() ==> (#[trigger] m[r]).len() >= m[0].len()
}

/// The grand total of the worksheet read by columns.
pub open spec fn column_total(m: Seq<Seq<char>>) -> Result<int, SheetError> {
    if m.len() == 0 {
        Err(SheetError::Empty)
    } else if !rows_reach(m) {
        Err(SheetError::ShortRow)
    } else {
        match tally(m, m[0].len() as int) {
            None => Err(SheetError::Overflow),
            Some(t) => match fit(t.total + t.block) {
                Some(v) => Ok(v),
                None => Err(SheetError::Overflow),
            },
        }
    }
}

/// Once a number is no `i64`, no longer reading has a state.
pub proof fn lemma_tally_stops(m: Seq<Seq<char>>, k: int, c: int)
    requires
        0 <= k <= c,
        tally(m, k) is None,
    ensures
        tally(m, c) is None,
    decreases c - k,
{
    if k < c {
        lemma_tally_stops(m, k, c - 1);
    }
}

/// Once the number of a column is no `i64`, it has none further down.
pub proof fn lemma_column_stops(m: Seq<Seq<char>>, col: int, k: int, r: int)
    requires
        0 <= k <= r,
        column_number(m, col, k) is None,
    ensures
        column_number(m, col, r) is None,
    decreases r - k,
{
    if k < r {
        lemma_column_stops(m, col, k, r - 1);
    }
}

/// Reads the number in a column of digits, top to bottom, above the last
/// row.
fn read_column(matrix: &Vec<Vec<char>>, col: usize) -> (number: Option<i64>)
    requires
        matrix@.len() > 0,
        rows_reach(views(matrix@)),
        col < matrix@[0]@.len(),
    ensures
        match number {
            Some(v) => column_number(views(matrix@), col as int, matrix@.len() - 1) == Some(
                v as int,
            ),
            None => column_number(views(matrix@), col as int, matrix@.len() - 1) is None,
        },
{
    let rows: usize = matrix.len();
    let mut acc: i64 = 0;
    let mut r: usize = 0;
    while r < rows - 1
        invariant
            rows == matrix@.len(),
            rows > 0,
            r <= rows - 1,
            rows_reach(views(matrix@)),
            col < matrix@[0]@.len(),
            0 <= acc,
            column_number(views(matrix@), col as int, r as int) == Some(acc as int),
        decreases rows - 1 - r,
    {
        assert(views(matrix@)[r as int] == matrix@[r as int]@);
        assert(views(matrix@)[0] == matrix@[0]@);
        let c: char = matrix[r][col];
        let u: u32 = c as u32;
        if 0x30 <= u && u <= 0x39 {
            let next: Option<i64> = match acc.checked_mul(10) {
                Some(tens) => tens.checked_add((u - 0x30) as i64),
                None => None,
            };
            match next {
                Some(v) => {
                    acc = v;
                },
                None => {
                    proof {
                        lemma_column_stops(views(matrix@), col as int, r + 1, rows - 1);
                    }
                    return None;
                },
            }
        }
        r += 1;
    }
    Some(acc)
}

/// Decides whether every row is at least as long as the first.
fn check_rows(matrix: &Vec<Vec<char>>) -> (ok: bool)
    requires
        matrix@.len() > 0,
    ensures
        ok == rows_reach(views(matrix@)),
{
    let cols: usize = matrix[0].len();
    let mut r: usize = 0;
    assert(views(matrix@)[0] == matrix@[0]@);
    while r < matrix.len()
        invariant
            r <= matrix@.len(),
            matrix@.len() > 0,
            cols == views(matrix@)[0].len(),
            forall|k: int| 0 <= k < r ==> (#[trigger] views(matrix@)[k]).len() >= cols,
        decreases matrix.len() - r,
    {
        assert(views(matrix@)[r as int] == matrix@[r as int]@);
        if matrix[r].len() < cols {
            return false;
        }
        r += 1;
    }
    true
}

/// The grand total of the worksheet read by columns: each column of digits
/// is a number, and the operator below a block's first column says how the
/// block's numbers combine.
pub fn part2(matrix: &Vec<Vec<char>>) -> (res: Result<i64, SheetError>)
    ensures
        match res {
            Ok(v) => column_total(views(matrix@)) == Ok::<int, SheetError>(v as int),
            Err(e) => column_total(views(matrix@)) == Err::<int, SheetError>(e),
        },
{
    let rows: usize = matrix.len();
    if rows == 0 {
        return Err(SheetError::Empty);
    }
    if !check_rows(matrix) {
        return Err(SheetError::ShortRow);
    }
    let cols: usize = matrix[0].len();
    let ghost m = views(matrix@);
    assert(m[0] == matrix@[0]@);
    assert(m[rows - 1] == matrix@[rows - 1]@);
    let mut res: i64 = 0;
    let mut multiplies: bool = false;
    let mut block_res: i64 = 0;
    let mut col: usize = 0;
    while col < cols
        invariant
            rows == matrix@.len(),
            rows > 0,
            m == views(matrix@),
            rows_reach(m),
            cols == m[0].len(),
            m[0] == matrix@[0]@,
            m[rows - 1] == matrix@[rows - 1]@,
            col <= cols,
            tally(m, col as int) == Some(
                Tally { total: res as int, block: block_res as int, multiplies },
            ),
        decreases cols - col,
    {
        let sign: char = matrix[rows - 1][col];
        if sign == '*' || sign == '+' {
            match res.checked_add(block_res) {
                Some(total) => {
                    res = total;
                },
                None => {
                    proof {
                        lemma_tally_stops(m, col + 1, cols as int);
                    }
                    return Err(SheetError::Overflow);
                },
            }
            if sign == '*' {
                block_res = 1;
                multiplies = true;
            } else {
                block_res = 0;
                multiplies = false;
            }
        }
        let number: i64 = match read_column(matrix, col) {
            Some(v) => v,
            None => {
                proof {
                    lemma_tally_stops(m, col + 1, cols as int);
                }
                return Err(SheetError::Overflow);
            },
        };
        if number != 0 {
            let combined: Option<i64> = if multiplies {
                block_res.checked_mul(number)
            } else {
                block_res.checked_add(number)
            };
            match combined {
                Some(v) => {
                    block_res = v;
                },
                None => {
                    proof {
                        lemma_tally_stops(m, col + 1, cols as int);
                    }
                    return Err(SheetError::Overflow);
                },
            }
        }
        col += 1;
    }
    match res.checked_add(block_res) {
        Some(v) => Ok(v),
        None => Err(SheetError::Overflow),
    }
}

/// The characters of each line.
pub fn char_rows(lines: &Vec<String>) -> (rows: Vec<Vec<char>>)
    ensures
        views(rows@) == line_views(lines@),
{
    let mut rows: Vec<Vec<char>> = Vec::new();
    let mut i: usize = 0;
    while i < lines.len()
        invariant
            i <= lines.len(),
            rows@.len() == i,
            forall|k: int| 0 <= k < i ==> (#[trigger] rows@[k])@ == lines@[k]@,
        decreases lines.len() - i,
    {
        rows.push(chars_of(lines[i].as_str()));
        i += 1;
    }
    assert(views(rows@) =~= line_views(lines@));
    rows
}

/// The grand total of the worksheet that the lines write, read by columns.
pub fn solve(lines: &Vec<String>) -> (res: Result<i64, SheetError>)
    ensures
        match res {
            Ok(v) => column_total(line_views(lines@)) == Ok::<int, SheetError>(v as int),
            Err(e) => column_total(line_views(lines@)) == Err::<int, SheetError>(e),
        },
{
    let matrix2: Vec<Vec<char>> = char_rows(lines);
    part2(&matrix2)
}

// ---------------------------------------------------------------------------
// Row by row
// ---------------------------------------------------------------------------

/// What a line of the worksheet holds.
pub enum Row {
    /// Nothing but white space.
    Blank,
    /// Numbers, one for each problem.
    Numbers(Seq<i64>),
    /// Anything else: for each problem the word that says what to do with
    /// its numbers.
    Operators(Seq<Seq<char>>),
}

/// Every word is an `i64`.
pub open spec fn all_numbers(tokens: Seq<Seq<char>>) -> bool {
    forall|i: int| 0 <= i < tokens.len() ==> parse_i64(#[trigger] tokens[i]) is Some
}

/// The numbers that the words write.
pub open spec fn numbers_of(tokens: Seq<Seq<char>>) -> Seq<i64> {
    tokens.map_values(|t: Seq<char>| parse_i64(t).unwrap())
}

/// What a line holds: its words are all numbers, or they are operators.
pub open spec fn classify(line: Seq<char>) -> Row {
    let tokens = words(trim(line), false);
    if trim(line).len() == 0 {
        Row::Blank
    } else if all_numbers(tokens) {
        Row::Numbers(numbers_of(tokens))
    } else {
        Row::Operators(tokens)
    }
}

/// Every row has a number for problem `i`.
pub open spec fn has_column(rows: Seq<Seq<i64>>, i: int) -> bool {
    forall|r: int| 0 <= r < rows.len() ==> (#[trigger] rows[r]).len() > i
}

/// The sum of the numbers of problem `i` in the first `r` rows, while
/// every partial sum is an `i64`.
pub open spec fn column_sum(rows: Seq<Seq<i64>>, i: int, r: int) -> Option<int>
    decreases r,
{
    if r <= 0 {
        Some(0)
    } else {
        match column_sum(rows, i, r - 1) {
            None => None,
            Some(acc) => fit(acc + rows[r - 1][i]),
        }
    }
}

/// The product of the numbers of problem `i` in the first `r` rows, while
/// every partial product is an `i64`.
pub open spec fn column_product(rows: Seq<Seq<i64>>, i: int, r: int) -> Option<int>
    decreases r,
{
    if r <= 0 {
        Some(1)
    } else {
        match column_product(rows, i, r - 1) {
            None => None,
            Some(acc) => fit(acc * rows[r - 1][i]),
        }
    }
}

/// The answer to problem `i`: the sum of its numbers under `+`, their
/// product under `*`, and 0 under any other word.
pub open spec fn answer(rows: Seq<Seq<i64>>, i: int, op: Seq<char>) -> Result<int, SheetError> {
    if !has_column(rows, i) {
        Err(SheetError::ShortRow)
    } else {
        let value = if op == seq!['+'] {
            column_sum(rows, i, rows.len() as int)
        } else if op == seq!['*'] {
            column_product(rows, i, rows.len() as int)
        } else {
            Some(0int)
        };
        match value {
            Some(v) => Ok(v),
            None => Err(SheetError::Overflow),
        }
    }
}

/// `total` after the answers to the first `k` problems were added to it.
pub open spec fn add_answers(
    rows: Seq<Seq<i64>>,
    ops: Seq<Seq<char>>,
    total: int,
    k: int,
) -> Result<int, SheetError>
    decreases k,
{
    if k <= 0 {
        Ok(total)
    } else {
        match add_answers(rows, ops, total, k - 1) {
            Err(e) => Err(e),
            Ok(t) => match answer(rows, k - 1, ops[k - 1]) {
                Err(e) => Err(e),
                Ok(v) => match fit(t + v) {
                    Some(s) => Ok(s),
                    None => Err(SheetError::Overflow),
                },
            },
        }
    }
}

/// The rows of numbers read and the total of the answers given, after the
/// given lines.
pub open spec fn sheet(lines: Seq<Seq<char>>) -> Result<(Seq<Seq<i64>>, int), SheetError>
    decreases lines.len(),
{
    if lines.len() == 0 {
        Ok((Seq::empty(), 0))
    } else {
        match sheet(lines.drop_last()) {
            Err(e) => Err(e),
            Ok((rows, total)) => match classify(lines.last()) {
                Row::Blank => Ok((rows, total)),
                Row::Numbers(row) => Ok((rows.push(row), total)),
                Row::Operators(ops) => match add_answers(rows, ops, total, ops.len() as int) {
                    Err(e) => Err(e),
                    Ok(t) => Ok((rows, t)),
                },
            },
        }
    }
}

/// The grand total of the worksheet read by rows.
pub open spec fn row_total(lines: Seq<Seq<char>>) -> Result<int, SheetError> {
    match sheet(lines) {
        Err(e) => Err(e),
        Ok((_, total)) => Ok(total),
    }
}

/// Once a line fails, so does every longer worksheet.
pub proof fn lemma_sheet_stops(lines: Seq<Seq<char>>, k: int)
    requires
        0 <= k <= lines.len(),
        sheet(lines.take(k)) is Err,
    ensures
        sheet(lines) == sheet(lines.take(k)),
    decreases lines.len() - k,
{
    if k < lines.len() {
        assert(lines.take(k + 1).drop_last() == lines.take(k));
        lemma_sheet_stops(lines, k + 1);
    } else {
        assert(lines.take(k) == lines);
    }
}

/// Once an answer fails, so does every longer list of answers.
pub proof fn lemma_answers_stop(
    rows: Seq<Seq<i64>>,
    ops: Seq<Seq<char>>,
    total: int,
    k: int,
    n: int,
)
    requires
        0 <= k <= n,
        add_answers(rows, ops, total, k) is Err,
    ensures
        add_answers(rows, ops, total, n) == add_answers(rows, ops, total, k),
    decreases n - k,
{
    if k < n {
        lemma_answers_stop(rows, ops, total, k, n - 1);
    }
}

/// Once a partial sum is no `i64`, there is no sum.
pub proof fn lemma_sum_stops(rows: Seq<Seq<i64>>, i: int, k: int, r: int)
    requires
        0 <= k <= r,
        column_sum(rows, i, k) is None,
    ensures
        column_sum(rows, i, r) is None,
    decreases r - k,
{
    if k < r {
        lemma_sum_stops(rows, i, k, r - 1);
    }
}

/// Once a partial product is no `i64`, there is no product.
pub proof fn lemma_product_stops(rows: Seq<Seq<i64>>, i: int, k: int, r: int)
    requires
        0 <= k <= r,
        column_product(rows, i, k) is None,
    ensures
        column_product(rows, i, r) is None,
    decreases r - k,
{
    if k < r {
        lemma_product_stops(rows, i, k, r - 1);
    }
}

/// The views of a list of rows of numbers.
pub open spec fn number_rows(rows: Seq<Vec<i64>>) -> Seq<Seq<i64>> {
    rows.map_values(|r: Vec<i64>| r@)
}

/// Reads the words as numbers, if all of them are.
fn read_numbers(tokens: &Vec<Vec<char>>) -> (row: Option<Vec<i64>>)
    ensures
        match row {
            Some(r) => all_numbers(views(tokens@)) && r@ == numbers_of(views(tokens@)),
            None => !all_numbers(views(tokens@)),
        },
{
    let mut row: Vec<i64> = Vec::new();
    let mut i: usize = 0;
    while i < tokens.len()
        invariant
            i <= tokens@.len(),
            row@.len() == i,
            forall|k: int| 0 <= k < i ==> parse_i64(#[trigger] views(tokens@)[k]) == Some(row@[k]),
        decreases tokens.len() - i,
    {
        assert(views(tokens@)[i as int] == tokens@[i as int]@);
        match read_i64(&tokens[i]) {
            Some(v) => {
                row.push(v);
            },
            None => {
                return None;
            },
        }
        i += 1;
    }
    assert(row@ =~= numbers_of(views(tokens@)));
    Some(row)
}

/// Decides whether every row has a number for problem `i`.
fn check_column(matrix: &Vec<Vec<i64>>, i: usize) -> (ok: bool)
    ensures
        ok == has_column(number_rows(matrix@), i as int),
{
    let mut r: usize = 0;
    while r < matrix.len()
        invariant
            r <= matrix@.len(),
            forall|k: int| 0 <= k < r ==> (#[trigger] number_rows(matrix@)[k]).len() > i,
        decreases matrix.len() - r,
    {
        assert(number_rows(matrix@)[r as int] == matrix@[r as int]@);
        if matrix[r].len() <= i {
            return false;
        }
        r += 1;
    }
    true
}

/// Answers problem `i` under the operator `op`.
fn answer_problem(matrix: &Vec<Vec<i64>>, i: usize, op: &Vec<char>) -> (res: Result<i64, SheetError>)
    ensures
        match res {
            Ok(v) => answer(number_rows(matrix@), i as int, op@) == Ok::<int, SheetError>(v as int),
            Err(e) => answer(number_rows(matrix@), i as int, op@) == Err::<int, SheetError>(e),
        },
{
    if !check_column(matrix, i) {
        return Err(SheetError::ShortRow);
    }
    let ghost rows = number_rows(matrix@);
    let adds: bool = op.len() == 1 && op[0] == '+';
    let multiplies: bool = op.len() == 1 && op[0] == '*';
    proof {
        if adds {
            assert(op@ =~= seq!['+']);
        } else {
            assert(op@ != seq!['+']) by {
                if op@ == seq!['+'] {
                    assert(op@.len() == 1 && op@[0] == '+');
                }
            }
        }
        if multiplies {
            assert(op@ =~= seq!['*']);
        } else {
            assert(op@ != seq!['*']) by {
                if op@ == seq!['*'] {
                    assert(op@.len() == 1 && op@[0] == '*');
                }
            }
        }
    }
    if !adds && !multiplies {
        return Ok(0);
    }
    let mut acc: i64 = if adds {
        0
    } else {
        1
    };
    let mut r: usize = 0;
    while r < matrix.len()
        invariant
            r <= matrix@.len(),
            rows == number_rows(matrix@),
            has_column(rows, i as int),
            adds != multiplies,
            adds == (op@ == seq!['+']),
            multiplies == (op@ == seq!['*']),
            adds ==> column_sum(rows, i as int, r as int) == Some(acc as int),
            multiplies ==> column_product(rows, i as int, r as int) == Some(acc as int),
        decreases matrix.len() - r,
    {
        assert(rows[r as int] == matrix@[r as int]@);
        let v: i64 = matrix[r][i];
        let next: Option<i64> = if adds {
            acc.checked_add(v)
        } else {
            acc.checked_mul(v)
        };
        match next {
            Some(n) => {
                acc = n;
            },
            None => {
                proof {
                    if adds {
                        lemma_sum_stops(rows, i as int, r + 1, rows.len() as int);
                    } else {
                        lemma_product_stops(rows, i as int, r + 1, rows.len() as int);
                    }
                }
                return Err(SheetError::Overflow);
            },
        }
        r += 1;
    }
    Ok(acc)
}

/// The grand total of the worksheet read by rows: every line of numbers
/// gives each problem one number, and a line of operators has each problem
/// answered from the numbers read so far.
pub fn part1(lines: &Vec<String>) -> (res: Result<i64, SheetError>)
    ensures
        match res {
            Ok(v) => row_total(line_views(lines@)) == Ok::<int, SheetError>(v as int),
            Err(e) => row_total(line_views(lines@)) == Err::<int, SheetError>(e),
        },
{
    let mut matrix: Vec<Vec<i64>> = Vec::new();
    let mut ans: i64 = 0;
    let mut n: usize = 0;
    assert(line_views(lines@).take(0) =~= Seq::<Seq<char>>::empty());
    assert(number_rows(matrix@) =~= Seq::<Seq<i64>>::empty());
    while n < lines.len()
        invariant
            n <= lines.len(),
            sheet(line_views(lines@).take(n as int)) == Ok::<(Seq<Seq<i64>>, int), SheetError>(
                (number_rows(matrix@), ans as int),
            ),
        decreases lines.len() - n,
    {
        let ghost all = line_views(lines@);
        proof {
            assert(all.take(n + 1).drop_last() == all.take(n as int));
            assert(all.take(n + 1).last() == lines@[n as int]@);
        }
        let line: Vec<char> = trimmed(&chars_of(lines[n].as_str()));
        if line.len() > 0 {
            let tokens: Vec<Vec<char>> = split_words(&line, false);
            match read_numbers(&tokens) {
                Some(row) => {
                    let ghost before = number_rows(matrix@);
                    matrix.push(row);
                    assert(number_rows(matrix@) =~= before.push(row@));
                },
                None => {
                    let ghost rows = number_rows(matrix@);
                    let ghost ops = views(tokens@);
                    let ghost start = ans as int;
                    let mut i: usize = 0;
                    while i < tokens.len()
                        invariant
                            i <= tokens@.len(),
                            rows == number_rows(matrix@),
                            ops == views(tokens@),
                            n < lines.len(),
                            all == line_views(lines@),
                            sheet(all.take(n as int)) == Ok::<(Seq<Seq<i64>>, int), SheetError>(
                                (rows, start),
                            ),
                            classify(all.take(n + 1).last()) == Row::Operators(ops),
                            all.take(n + 1).drop_last() == all.take(n as int),
                            add_answers(rows, ops, start, i as int) == Ok::<int, SheetError>(
                                ans as int,
                            ),
                        decreases tokens.len() - i,
                    {
                        assert(ops[i as int] == tokens@[i as int]@);
                        let step: Result<i64, SheetError> = match answer_problem(
                            &matrix,
                            i,
                            &tokens[i],
                        ) {
                            Ok(s) => match ans.checked_add(s) {
                                Some(t) => Ok(t),
                                None => Err(SheetError::Overflow),
                            },
                            Err(e) => Err(e),
                        };
                        match step {
                            Ok(t) => {
                                ans = t;
                            },
                            Err(e) => {
                                proof {
                                    lemma_answers_stop(
                                        rows,
                                        ops,
                                        start,
                                        i + 1,
                                        ops.len() as int,
                                    );
                                    lemma_sheet_stops(all, n + 1);
                                }
                                return Err(e);
                            },
                        }
                        i += 1;
                    }
                },
            }
        }
        n += 1;
    }
    assert(line_views(lines@).take(lines.len() as int) == line_views(lines@));
    Ok(ans)
}

} // verus!
