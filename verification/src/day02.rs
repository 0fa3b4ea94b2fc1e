//! Product ids made of a repeated block of digits, summed over ranges of
//! ids.
use crate::text::{
    chars_of, line_views, parse_i64, read_i64, split, split_at_char, split_first, split_once,
    views,
};
use vstd::prelude::*;

verus! {

/// Why the ranges have no sums.
#[derive(Clone, Copy, Debug, PartialEq, Eq, Structural)]
pub enum RangeError {
    /// A range without a `-` between its ends.
    BadRange,
    /// An end of a range that is no `i64`.
    BadNumber,
    /// A sum is more than an `i64` holds.
    Overflow,
}

// ---------------------------------------------------------------------------
// Repeated blocks
// ---------------------------------------------------------------------------

/// The two halves of `s` are equal.
pub open spec fn twice(s: Seq<u8>) -> bool {
    s.len() % 2 == 0 && s.take(s.len() as int / 2) == s.skip(s.len() as int / 2)
}

/// `s` is its first `n` bytes, repeated a whole number of times.
pub open spec fn repeats(s: Seq<u8>, n: int) -> bool {
    s.len() % (n as nat) == 0 && forall|i: int| 0 <= i < s.len() ==> #[trigger] s[i] == s[i % n]
}

/// `s` is a shorter block repeated at least twice.
pub open spec fn repeated(s: Seq<u8>) -> bool {
    exists|n: int| 1 <= n < s.len() && #[trigger] repeats(s, n)
}

/// Decides whether the second half repeats the first.
pub fn is_invalid(s: &[u8]) -> (res: bool)
    ensures
        res == twice(s@),
{
    let n: usize = s.len();
    if n % 2 != 0 {
        return false;
    }
    let mid: usize = n / 2;
    let mut i: usize = 0;
    while i < mid
        invariant
            n == s@.len(),
            mid == n / 2,
            n % 2 == 0,
            i <= mid,
            forall|k: int| 0 <= k < i ==> #[trigger] s@[k] == s@[mid + k],
        decreases mid - i,
    {
        if s[i] != s[mid + i] {
            assert(s@.take(mid as int)[i as int] != s@.skip(mid as int)[i as int]);
            return false;
        }
        i += 1;
    }
    assert(s@.take(mid as int) =~= s@.skip(mid as int));
    true
}

/// Decides whether `s` consists of copies of its first `n` bytes.
pub fn all_chunks_equal(s: &[u8], n: usize) -> (res: bool)
    requires
        n > 0,
    ensures
        res == repeats(s@, n as int),
{
    if s.len() % n != 0 {
        return false;
    }
    let mut i: usize = 0;
    while i < s.len()
        invariant
            n > 0,
            i <= s@.len(),
            forall|k: int| 0 <= k < i ==> #[trigger] s@[k] == s@[k % (n as int)],
        decreases s.len() - i,
    {
        assert(0 <= (i as int) % (n as int) <= i) by (nonlinear_arith)
            requires
                n > 0,
                i >= 0,
        ;
        if s[i] != s[i % n] {
            return false;
        }
        i += 1;
    }
    true
}

/// Decides whether `s` is a shorter block repeated at least twice.
pub fn is_really_invalid(s: &[u8]) -> (res: bool)
    ensures
        res == repeated(s@),
{
    let n: usize = s.len();
    let mut chunk_size: usize = 1;
    while chunk_size < n
        invariant
            1 <= chunk_size,
            n == s@.len(),
            forall|k: int| 1 <= k < chunk_size ==> !#[trigger] repeats(s@, k),
        decreases n - chunk_size,
    {
        if all_chunks_equal(s, chunk_size) {
            return true;
        }
        chunk_size += 1;
    }
    false
}

// ---------------------------------------------------------------------------
// Decimal digits
// ---------------------------------------------------------------------------

/// The digits of a number that is not negative, in base ten, as bytes.
pub open spec fn digits(n: int) -> Seq<u8>
    decreases n,
{
    if n < 10 {
        seq![(0x30 + n) as u8]
    } else {
        digits(n / 10).push((0x30 + n % 10) as u8)
    }
}

/// The text of an integer in base ten: a minus sign before the digits of a
/// negative one.
pub open spec fn decimal(n: int) -> Seq<u8> {
    if n < 0 {
        seq![0x2du8] + digits(-n)
    } else {
        digits(n)
    }
}

/// Writes an integer in base ten.
pub fn to_decimal(n: i64) -> (out: Vec<u8>)
    ensures
        out@ == decimal(n as int),
{
    let magnitude: u64 = if n >= 0 {
        n as u64
    } else {
        (-(n as i128)) as u64
    };
    let mut rev: Vec<u8> = Vec::new();
    let mut cur: u64 = magnitude;
    while cur >= 10
        invariant
            digits(magnitude as int) == digits(cur as int) + rev@.reverse(),
        decreases cur,
    {
        let d: u8 = (cur % 10) as u8 + 0x30;
        proof {
            let ghost_rev = rev@.push(d);
            assert(ghost_rev.reverse() =~= seq![d] + rev@.reverse());
            assert(digits(cur as int) == digits(cur as int / 10).push(d));
            assert(digits(cur as int / 10).push(d) + rev@.reverse() =~= digits(cur as int / 10)
                + (seq![d] + rev@.reverse()));
        }
        rev.push(d);
        cur = cur / 10;
    }
    let d: u8 = cur as u8 + 0x30;
    proof {
        assert(rev@.push(d).reverse() =~= seq![d] + rev@.reverse());
        assert(digits(cur as int) =~= seq![d]);
    }
    rev.push(d);
    let mut out: Vec<u8> = Vec::new();
    if n < 0 {
        out.push(0x2d);
    }
    let ghost head = out@;
    let mut k: usize = rev.len();
    while k > 0
        invariant
            k <= rev@.len(),
            out@ == head + rev@.reverse().take(rev@.len() - k),
        decreases k,
    {
        k -= 1;
        proof {
            let r = rev@.reverse();
            let done = rev@.len() - k - 1;
            assert(r.take(done + 1) =~= r.take(done).push(r[done]));
            assert(r[done] == rev@[k as int]);
            assert(head + r.take(done).push(r[done]) =~= (head + r.take(done)).push(r[done]));
        }
        out.push(rev[k]);
    }
    proof {
        assert(rev@.reverse().take(rev@.len() as int) =~= rev@.reverse());
        assert(head + rev@.reverse() =~= decimal(n as int));
    }
    out
}

// ---------------------------------------------------------------------------
// Sums over ranges
// ---------------------------------------------------------------------------

/// `v` where it is an `i64`.
pub open spec fn fit(v: int) -> Option<int> {
    if i64::MIN <= v <= i64::MAX {
        Some(v)
    } else {
        None
    }
}

/// The two sums after the id `i` was looked at: it is added to the first
/// where its text is a block twice, and to the second where its text is a
/// block repeated. `None` once a sum is no `i64`.
pub open spec fn add_id(sums: Option<(int, int)>, i: int) -> Option<(int, int)> {
    match sums {
        None => None,
        Some((doubled, repeating)) => {
            let text = decimal(i);
            let first = if twice(text) {
                fit(doubled + i)
            } else {
                Some(doubled)
            };
            let second = if repeated(text) {
                fit(repeating + i)
            } else {
                Some(repeating)
            };
            match (first, second) {
                (Some(d), Some(r)) => Some((d, r)),
                _ => None,
            }
        },
    }
}

/// The two sums after the ids from `a` to `b`, both included.
pub open spec fn range_sums(start: Option<(int, int)>, a: int, b: int) -> Option<(int, int)>
    decreases b - a + 1,
{
    if b < a {
        start
    } else {
        add_id(range_sums(start, a, b - 1), b)
    }
}

/// Once a sum is no `i64`, it stays so.
pub proof fn lemma_range_sums_stop(start: Option<(int, int)>, a: int, k: int, b: int)
    requires
        a - 1 <= k <= b,
        range_sums(start, a, k) is None,
    ensures
        range_sums(start, a, b) is None,
    decreases b - k,
{
    if k < b {
        lemma_range_sums_stop(start, a, k, b - 1);
    }
}

/// Adds the ids from `n1` to `n2` that are made of a block twice to the
/// first sum, and those made of a block repeated to the second.
pub fn add_range(sums: (i64, i64), n1: i64, n2: i64) -> (res: Option<(i64, i64)>)
    ensures
        match res {
            Some((d, r)) => range_sums(Some((sums.0 as int, sums.1 as int)), n1 as int, n2 as int)
                == Some((d as int, r as int)),
            None => range_sums(Some((sums.0 as int, sums.1 as int)), n1 as int, n2 as int) is None,
        },
{
    if n2 < n1 {
        return Some(sums);
    }
    let ghost start = Some((sums.0 as int, sums.1 as int));
    let mut part_1: i64 = sums.0;
    let mut invalid_sum: i64 = sums.1;
    let mut i: i64 = n1;
    loop
        invariant_except_break
            range_sums(start, n1 as int, i - 1) == Some((part_1 as int, invalid_sum as int)),
        invariant
            n1 <= i <= n2,
            start == Some((sums.0 as int, sums.1 as int)),
        ensures
            i == n2,
            range_sums(start, n1 as int, n2 as int) == Some((part_1 as int, invalid_sum as int)),
        decreases n2 - i,
    {
        let n: Vec<u8> = to_decimal(i);
        if is_invalid(n.as_slice()) {
            match part_1.checked_add(i) {
                Some(v) => {
                    part_1 = v;
                },
                None => {
                    proof {
                        lemma_range_sums_stop(start, n1 as int, i as int, n2 as int);
                    }
                    return None;
                },
            }
        }
        if is_really_invalid(n.as_slice()) {
            match invalid_sum.checked_add(i) {
                Some(v) => {
                    invalid_sum = v;
                },
                None => {
                    proof {
                        lemma_range_sums_stop(start, n1 as int, i as int, n2 as int);
                    }
                    return None;
                },
            }
        }
        if i == n2 {
            break;
        }
        i += 1;
    }
    Some((part_1, invalid_sum))
}

/// The two sums after one range, written as two numbers around the first
/// `-`, was taken in.
pub open spec fn take_part(sums: (int, int), part: Seq<char>) -> Result<(int, int), RangeError> {
    match split_once(part, '-') {
        None => Err(RangeError::BadRange),
        Some((left, right)) => match parse_i64(left) {
            None => Err(RangeError::BadNumber),
            Some(a) => match parse_i64(right) {
                None => Err(RangeError::BadNumber),
                Some(b) => match range_sums(Some(sums), a as int, b as int) {
                    None => Err(RangeError::Overflow),
                    Some(s) => Ok(s),
                },
            },
        },
    }
}

/// The two sums after the first `k` of the ranges were taken in.
pub open spec fn take_parts(sums: (int, int), parts: Seq<Seq<char>>, k: int) -> Result<
    (int, int),
    RangeError,
>
    decreases k,
{
    if k <= 0 {
        Ok(sums)
    } else {
        match take_parts(sums, parts, k - 1) {
            Err(e) => Err(e),
            Ok(s) => take_part(s, parts[k - 1]),
        }
    }
}

/// The two sums after the lines, each a list of ranges with commas between
/// them.
pub open spec fn take_lines(lines: Seq<Seq<char>>) -> Result<(int, int), RangeError>
    decreases lines.len(),
{
    if lines.len() == 0 {
        Ok((0, 0))
    } else {
        match take_lines(lines.drop_last()) {
            Err(e) => Err(e),
            Ok(s) => {
                let parts = split(lines.last(), ',');
                take_parts(s, parts, parts.len() as int)
            },
        }
    }
}

/// Once a range fails, so does every longer list of ranges.
pub proof fn lemma_parts_stop(sums: (int, int), parts: Seq<Seq<char>>, k: int, n: int)
    requires
        0 <= k <= n,
        take_parts(sums, parts, k) is Err,
    ensures
        take_parts(sums, parts, n) == take_parts(sums, parts, k),
    decreases n - k,
{
    if k < n {
        lemma_parts_stop(sums, parts, k, n - 1);
    }
}

/// Once a line fails, so does every longer list of lines.
pub proof fn lemma_lines_stop(lines: Seq<Seq<char>>, k: int)
    requires
        0 <= k <= lines.len(),
        take_lines(lines.take(k)) is Err,
    ensures
        take_lines(lines) == take_lines(lines.take(k)),
    decreases lines.len() - k,
{
    if k < lines.len() {
        assert(lines.take(k + 1).drop_last() == lines.take(k));
        lemma_lines_stop(lines, k + 1);
    } else {
        assert(lines.take(k) == lines);
    }
}

/// Takes in one range.
fn read_part(sums: (i64, i64), part: &Vec<char>) -> (res: Result<(i64, i64), RangeError>)
    ensures
        match res {
            Ok((d, r)) => take_part((sums.0 as int, sums.1 as int), part@) == Ok::<
                (int, int),
                RangeError,
            >((d as int, r as int)),
            Err(e) => take_part((sums.0 as int, sums.1 as int), part@) == Err::<
                (int, int),
                RangeError,
            >(e),
        },
{
    let (a, b) = match split_first(part, '-') {
        Some(sides) => sides,
        None => {
            return Err(RangeError::BadRange);
        },
    };
    let n1: i64 = match read_i64(&a) {
        Some(v) => v,
        None => {
            return Err(RangeError::BadNumber);
        },
    };
    let n2: i64 = match read_i64(&b) {
        Some(v) => v,
        None => {
            return Err(RangeError::BadNumber);
        },
    };
    match add_range(sums, n1, n2) {
        Some(s) => Ok(s),
        None => Err(RangeError::Overflow),
    }
}

/// The sum of the ids in the ranges that are a block of digits twice, and
/// the sum of those that are a block repeated at least twice.
pub fn sum_invalid_ids(lines: &Vec<String>) -> (res: Result<(i64, i64), RangeError>)
    ensures
        match res {
            Ok((d, r)) => take_lines(line_views(lines@)) == Ok::<(int, int), RangeError>(
                (d as int, r as int),
            ),
            Err(e) => take_lines(line_views(lines@)) == Err::<(int, int), RangeError>(e),
        },
{
    let mut sums: (i64, i64) = (0, 0);
    let mut n: usize = 0;
    let ghost all = line_views(lines@);
    assert(all.take(0) =~= Seq::<Seq<char>>::empty());
    while n < lines.len()
        invariant
            n <= lines.len(),
            all == line_views(lines@),
            take_lines(all.take(n as int)) == Ok::<(int, int), RangeError>(
                (sums.0 as int, sums.1 as int),
            ),
        decreases lines.len() - n,
    {
        proof {
            assert(all.take(n + 1).drop_last() == all.take(n as int));
            assert(all.take(n + 1).last() == lines@[n as int]@);
        }
        let parts: Vec<Vec<char>> = split_at_char(&chars_of(lines[n].as_str()), ',');
        let ghost start = (sums.0 as int, sums.1 as int);
        let ghost texts = views(parts@);
        let mut k: usize = 0;
        while k < parts.len()
            invariant
                n < lines.len(),
                all == line_views(lines@),
                k <= parts@.len(),
                texts == views(parts@),
                texts == split(all.take(n + 1).last(), ','),
                all.take(n + 1).drop_last() == all.take(n as int),
                take_lines(all.take(n as int)) == Ok::<(int, int), RangeError>(start),
                take_parts(start, texts, k as int) == Ok::<(int, int), RangeError>(
                    (sums.0 as int, sums.1 as int),
                ),
            decreases parts.len() - k,
        {
            assert(texts[k as int] == parts@[k as int]@);
            match read_part(sums, &parts[k]) {
                Ok(s) => {
                    sums = s;
                },
                Err(e) => {
                    proof {
                        lemma_parts_stop(start, texts, k + 1, texts.len() as int);
                        lemma_lines_stop(all, n + 1);
                    }
                    return Err(e);
                },
            }
            k += 1;
        }
        n += 1;
    }
    assert(all.take(lines.len() as int) == all);
    Ok(sums)
}

/// The sum of the ids in the ranges that are a block of digits repeated at
/// least twice.
pub fn solve02(lines: &Vec<String>) -> (res: Result<i64, RangeError>)
    ensures
        match res {
            Ok(v) => take_lines(line_views(lines@)) is Ok && take_lines(line_views(lines@))->Ok_0.1
                == v,
            Err(e) => take_lines(line_views(lines@)) == Err::<(int, int), RangeError>(e),
        },
{
    match sum_invalid_ids(lines) {
        Ok((_, invalid_sum)) => Ok(invalid_sum),
        Err(e) => Err(e),
    }
}

} // verus!
