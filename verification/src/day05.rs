//! A database of fresh ingredient ids: ranges of ids, and ids to look up in
//! the ranges read before them.
use crate::text::{chars_of, line_views, parse_i64, read_i64, split_first, split_once};
use vstd::prelude::*;

verus! {

/// Why a database cannot be read or counted.
#[derive(Clone, Copy, Debug, PartialEq, Eq, Structural)]
pub enum DbError {
    /// A line with a `-` whose sides are not two `i64`.
    BadRange,
    /// A line without `-` that is no `i64`.
    BadId,
    /// A count or a length is more than an `i64` holds.
    Overflow,
}

/// What one line of the database says.
#[derive(Clone, Copy, Debug, PartialEq, Eq, Structural)]
pub enum Entry {
    /// A range of fresh ids, both ends included.
    Range(i64, i64),
    /// An id to look up.
    Id(i64),
    /// Nothing: the line is empty.
    Blank,
}

/// Some interval holds `n`.
pub open spec fn covers(intervals: Seq<(i64, i64)>, n: int) -> bool {
    exists|k: int| 0 <= k < intervals.len() && in_interval(#[trigger] intervals[k], n)
}

/// The interval holds `n`.
pub open spec fn in_interval(interval: (i64, i64), n: int) -> bool {
    interval.0 <= n <= interval.1
}

/// Decides whether some interval holds `n`.
pub fn is_in_intervals(n: i64, intervals: &Vec<(i64, i64)>) -> (found: bool)
    ensures
        found == covers(intervals@, n as int),
{
    let mut k: usize = 0;
    while k < intervals.len()
        invariant
            k <= intervals@.len(),
            forall|i: int| 0 <= i < k ==> !in_interval(#[trigger] intervals@[i], n as int),
        decreases intervals.len() - k,
    {
        let interval: (i64, i64) = intervals[k];
        if interval.0 <= n && interval.1 >= n {
            assert(in_interval(intervals@[k as int], n as int));
            return true;
        }
        k += 1;
    }
    false
}

/// What a line says: with a `-`, the range between the numbers on the two
/// sides of the first `-`; else, unless it is empty, an id.
pub open spec fn parse_entry(s: Seq<char>) -> Result<Entry, DbError> {
    match split_once(s, '-') {
        Some((left, right)) => match (parse_i64(left), parse_i64(right)) {
            (Some(a), Some(b)) => Ok(Entry::Range(a, b)),
            _ => Err(DbError::BadRange),
        },
        None => if s.len() >= 1 {
            match parse_i64(s) {
                Some(n) => Ok(Entry::Id(n)),
                None => Err(DbError::BadId),
            }
        } else {
            Ok(Entry::Blank)
        },
    }
}

/// Reads one line of the database.
pub fn read_entry(line: &str) -> (res: Result<Entry, DbError>)
    ensures
        res == parse_entry(line@),
{
    let chars: Vec<char> = chars_of(line);
    match split_first(&chars, '-') {
        Some((left, right)) => {
            let a: Option<i64> = read_i64(&left);
            let b: Option<i64> = read_i64(&right);
            match (a, b) {
                (Some(a), Some(b)) => Ok(Entry::Range(a, b)),
                _ => Err(DbError::BadRange),
            }
        },
        None => {
            if chars.len() >= 1 {
                match read_i64(&chars) {
                    Some(n) => Ok(Entry::Id(n)),
                    None => Err(DbError::BadId),
                }
            } else {
                Ok(Entry::Blank)
            }
        },
    }
}

/// The database after the given lines: the ranges read, in order, and how
/// many of the ids lay in a range that was read before them; or the first
/// reason why a line cannot be read.
pub open spec fn scan(lines: Seq<Seq<char>>) -> Result<(Seq<(i64, i64)>, int), DbError>
    decreases lines.len(),
{
    if lines.len() == 0 {
        Ok((Seq::empty(), 0))
    } else {
        match scan(lines.drop_last()) {
            Err(e) => Err(e),
            Ok((intervals, fresh)) => match parse_entry(lines.last()) {
                Err(e) => Err(e),
                Ok(Entry::Range(a, b)) => Ok((intervals.push((a, b)), fresh)),
                Ok(Entry::Id(n)) => Ok(
                    (
                        intervals,
                        if covers(intervals, n as int) {
                            fresh + 1
                        } else {
                            fresh
                        },
                    ),
                ),
                Ok(Entry::Blank) => Ok((intervals, fresh)),
            },
        }
    }
}

/// Once a line cannot be read, no longer list of lines can.
pub proof fn lemma_scan_stops(lines: Seq<Seq<char>>, k: int)
    requires
        0 <= k <= lines.len(),
        scan(lines.take(k)) is Err,
    ensures
        scan(lines) == scan(lines.take(k)),
    decreases lines.len() - k,
{
    if k < lines.len() {
        assert(lines.take(k + 1).drop_last() == lines.take(k));
        lemma_scan_stops(lines, k + 1);
    } else {
        assert(lines.take(k) == lines);
    }
}

/// Reads the database: the ranges in order, and the number of ids found in
/// a range read before them.
pub fn read_database(lines: &Vec<String>) -> (res: Result<(Vec<(i64, i64)>, usize), DbError>)
    ensures
        match res {
            Ok((intervals, fresh)) => scan(line_views(lines@)) == Ok::<
                (Seq<(i64, i64)>, int),
                DbError,
            >((intervals@, fresh as int)),
            Err(e) => scan(line_views(lines@)) == Err::<(Seq<(i64, i64)>, int), DbError>(e),
        },
{
    let mut fresh: usize = 0;
    let mut intervals: Vec<(i64, i64)> = Vec::new();
    let mut i: usize = 0;
    assert(line_views(lines@).take(0) =~= Seq::<Seq<char>>::empty());
    while i < lines.len()
        invariant
            i <= lines.len(),
            fresh <= i,
            scan(line_views(lines@).take(i as int)) == Ok::<(Seq<(i64, i64)>, int), DbError>(
                (intervals@, fresh as int),
            ),
        decreases lines.len() - i,
    {
        proof {
            let t = line_views(lines@).take(i + 1);
            assert(t.drop_last() == line_views(lines@).take(i as int));
            assert(t.last() == lines@[i as int]@);
        }
        match read_entry(lines[i].as_str()) {
            Err(e) => {
                proof {
                    lemma_scan_stops(line_views(lines@), i + 1);
                }
                return Err(e);
            },
            Ok(Entry::Range(a, b)) => {
                intervals.push((a, b));
            },
            Ok(Entry::Id(n)) => {
                if is_in_intervals(n, &intervals) {
                    fresh += 1;
                }
            },
            Ok(Entry::Blank) => {},
        }
        i += 1;
    }
    assert(line_views(lines@).take(lines.len() as int) == line_views(lines@));
    Ok((intervals, fresh))
}

/// The number of ids that lie in a range read before them.
pub fn solve(lines: &Vec<String>) -> (res: Result<i64, DbError>)
    ensures
        match scan(line_views(lines@)) {
            Err(e) => res == Err::<i64, DbError>(e),
            Ok((_, fresh)) => if fresh <= i64::MAX {
                res == Ok::<i64, DbError>(fresh as i64)
            } else {
                res == Err::<i64, DbError>(DbError::Overflow)
            },
        },
{
    match read_database(lines) {
        Err(e) => Err(e),
        Ok((_, fresh)) => {
            if fresh as u64 > i64::MAX as u64 {
                Err(DbError::Overflow)
            } else {
                Ok(fresh as i64)
            }
        },
    }
}

// ---------------------------------------------------------------------------
// Merging the ranges
// ---------------------------------------------------------------------------

/// The larger of two ends.
pub open spec fn later(a: i64, b: i64) -> i64 {
    if a >= b {
        a
    } else {
        b
    }
}

/// Takes one more interval into a merged list: it widens the last interval
/// where it starts within it, and follows it otherwise.
pub open spec fn merge_step(acc: Seq<(i64, i64)>, next: (i64, i64)) -> Seq<(i64, i64)> {
    if acc.len() == 0 {
        seq![next]
    } else if next.0 <= acc.last().1 {
        acc.update(acc.len() - 1, (acc.last().0, later(acc.last().1, next.1)))
    } else {
        acc.push(next)
    }
}

/// The intervals merged from left to right.
pub open spec fn merged(intervals: Seq<(i64, i64)>) -> Seq<(i64, i64)>
    decreases intervals.len(),
{
    if intervals.len() == 0 {
        Seq::empty()
    } else {
        merge_step(merged(intervals.drop_last()), intervals.last())
    }
}

/// Merging leaves at least one interval of a list that is not empty.
pub proof fn lemma_merged_nonempty(intervals: Seq<(i64, i64)>)
    ensures
        intervals.len() > 0 ==> merged(intervals).len() > 0,
        intervals.len() == 0 ==> merged(intervals).len() == 0,
    decreases intervals.len(),
{
    if intervals.len() > 0 {
        lemma_merged_nonempty(intervals.drop_last());
    }
}

/// Merges intervals that are ordered by their start: each one that starts
/// within the interval before it is joined to it.
pub fn merge_intervals(intervals: &Vec<(i64, i64)>) -> (out: Vec<(i64, i64)>)
    ensures
        out@ == merged(intervals@),
{
    let mut out: Vec<(i64, i64)> = Vec::new();
    if intervals.len() == 0 {
        return out;
    }
    let mut last_int: (i64, i64) = intervals[0];
    let mut i: usize = 1;
    proof {
        assert(intervals@.take(1).drop_last() =~= Seq::<(i64, i64)>::empty());
        assert(merged(intervals@.take(1).drop_last()).len() == 0);
        assert(out@.push(last_int) =~= merged(intervals@.take(1)));
    }
    while i < intervals.len()
        invariant
            1 <= i <= intervals@.len(),
            out@.push(last_int) == merged(intervals@.take(i as int)),
        decreases intervals.len() - i,
    {
        let next: (i64, i64) = intervals[i];
        proof {
            assert(intervals@.take(i + 1).drop_last() == intervals@.take(i as int));
            assert(intervals@.take(i + 1).last() == next);
        }
        let ghost acc = out@.push(last_int);
        if next.0 <= last_int.1 {
            if next.1 > last_int.1 {
                last_int.1 = next.1;
            }
            assert(out@.push(last_int) =~= acc.update(
                acc.len() - 1,
                (acc.last().0, later(acc.last().1, next.1)),
            ));
        } else {
            out.push(last_int);
            last_int = next;
        }
        i += 1;
    }
    out.push(last_int);
    assert(intervals@.take(intervals.len() as int) == intervals@);
    out
}

/// No interval starts before an earlier one.
pub open spec fn ordered_by_start(s: Seq<(i64, i64)>) -> bool {
    forall|i: int, j: int| 0 <= i < j < s.len() ==> (#[trigger] s[i]).0 <= (#[trigger] s[j]).0
}

/// Each interval ends before the next one starts.
pub open spec fn separated(s: Seq<(i64, i64)>) -> bool {
    forall|k: int| 0 <= k && k + 1 < s.len() ==> (#[trigger] s[k]).1 < s[k + 1].0
}

/// Merging intervals that are ordered by their start keeps what they cover:
/// a number lies in a merged interval exactly when it lies in one of the
/// given ones. The merged intervals lie apart, and none of them starts
/// after the last given interval.
pub proof fn lemma_merged_covers(s: Seq<(i64, i64)>)
    requires
        ordered_by_start(s),
    ensures
        forall|n: int| covers(merged(s), n) <==> covers(s, n),
        separated(merged(s)),
        forall|k: int| 0 <= k < merged(s).len() ==> (#[trigger] merged(s)[k]).0 <= s.last().0,
    decreases s.len(),
{
    if s.len() > 0 {
        let p = s.drop_last();
        let x = s.last();
        let m = merged(p);
        let r = merged(s);
        lemma_merged_covers(p);
        lemma_merged_nonempty(p);
        assert(ordered_by_start(p));
        if p.len() > 0 {
            assert(p.last() == s[s.len() - 2]);
            assert(p.last().0 <= x.0);
        }
        assert forall|k: int| 0 <= k < r.len() implies (#[trigger] r[k]).0 <= x.0 by {
            if k < m.len() {
                assert(m[k].0 <= p.last().0);
            }
        }
        assert forall|n: int| covers(r, n) <==> covers(s, n) by {
            assert(covers(m, n) <==> covers(p, n));
            if covers(s, n) {
                let k = choose|k: int| 0 <= k < s.len() && in_interval(#[trigger] s[k], n);
                if k < p.len() {
                    assert(in_interval(p[k], n));
                    let t = choose|t: int| 0 <= t < m.len() && in_interval(#[trigger] m[t], n);
                    if t < r.len() - 1 || r.len() > m.len() {
                        assert(r[t] == m[t]);
                    } else {
                        assert(in_interval(r[t], n));
                    }
                } else {
                    if m.len() > 0 {
                        assert(m[m.len() - 1].0 <= p.last().0);
                    }
                    assert(in_interval(r[r.len() - 1], n));
                }
            }
            if covers(r, n) {
                let t = choose|t: int| 0 <= t < r.len() && in_interval(#[trigger] r[t], n);
                if t < m.len() && r[t] == m[t] {
                    assert(in_interval(m[t], n));
                    let k = choose|k: int| 0 <= k < p.len() && in_interval(#[trigger] p[k], n);
                    assert(s[k] == p[k]);
                } else if n >= x.0 && n <= x.1 {
                    assert(in_interval(s[s.len() - 1], n));
                } else {
                    assert(t == m.len() - 1);
                    assert(in_interval(m[t], n));
                    let k = choose|k: int| 0 <= k < p.len() && in_interval(#[trigger] p[k], n);
                    assert(s[k] == p[k]);
                }
            }
        }
        assert forall|k: int| 0 <= k && k + 1 < r.len() implies (#[trigger] r[k]).1 < r[k + 1].0 by {
            if k + 1 < m.len() {
                assert(m[k].1 < m[k + 1].0);
            }
        }
    }
}

/// The order of two intervals: by start, and by end where the starts agree.
pub open spec fn in_order(a: (i64, i64), b: (i64, i64)) -> bool {
    a.0 < b.0 || (a.0 == b.0 && a.1 <= b.1)
}

/// Every interval is in order with every later one.
pub open spec fn ordered(s: Seq<(i64, i64)>) -> bool {
    forall|i: int, j: int| 0 <= i < j < s.len() ==> in_order(#[trigger] s[i], #[trigger] s[j])
}

/// The key by which the intervals are ordered: the interval itself, start
/// before end.
pub fn interval_key(interval: &(i64, i64)) -> (key: (i64, i64))
    ensures
        key == *interval,
{
    (interval.0, interval.1)
}

/// Orders the intervals with `slice::sort_by_key` and `interval_key`.
/// Assumed of it: the result holds the same intervals, each as often as
/// before, in ascending order of their keys, pairs being ordered by the
/// first number and then by the second.
#[verifier::external_body]
fn sort_intervals(v: &mut Vec<(i64, i64)>)
    ensures
        ordered(final(v)@),
        final(v)@.to_multiset() == old(v)@.to_multiset(),
{
    v.sort_by_key(|interval| interval_key(interval));
}

/// `sorted` holds the intervals of `intervals` in order.
pub open spec fn sorting_of(sorted: Seq<(i64, i64)>, intervals: Seq<(i64, i64)>) -> bool {
    ordered(sorted) && sorted.to_multiset() == intervals.to_multiset()
}

/// The intervals put in order and merged.
pub fn merge_all(intervals: Vec<(i64, i64)>) -> (out: Vec<(i64, i64)>)
    ensures
        exists|sorted: Seq<(i64, i64)>| #[trigger]
            sorting_of(sorted, intervals@) && out@ == merged(sorted),
{
    let mut intervals = intervals;
    let ghost given = intervals@;
    sort_intervals(&mut intervals);
    assert(sorting_of(intervals@, given));
    merge_intervals(&intervals)
}

/// The sum of the lengths `end - start + 1` of the intervals, as long as
/// every length and every partial sum is an `i64`.
pub open spec fn total_length(s: Seq<(i64, i64)>) -> Option<int>
    decreases s.len(),
{
    if s.len() == 0 {
        Some(0)
    } else {
        match total_length(s.drop_last()) {
            None => None,
            Some(t) => {
                let width = s.last().1 - s.last().0;
                if i64::MIN <= width && width + 1 <= i64::MAX && i64::MIN <= t + width + 1
                    <= i64::MAX {
                    Some(t + width + 1)
                } else {
                    None
                }
            },
        }
    }
}

/// Once a partial sum is no `i64`, there is no total.
pub proof fn lemma_total_length_stops(s: Seq<(i64, i64)>, k: int)
    requires
        0 <= k <= s.len(),
        total_length(s.take(k)) is None,
    ensures
        total_length(s) is None,
    decreases s.len() - k,
{
    if k < s.len() {
        assert(s.take(k + 1).drop_last() == s.take(k));
        lemma_total_length_stops(s, k + 1);
    } else {
        assert(s.take(k) == s);
    }
}

/// Sums the lengths of the intervals.
pub fn sum_lengths(intervals: &Vec<(i64, i64)>) -> (sum: Option<i64>)
    ensures
        match sum {
            Some(t) => total_length(intervals@) == Some(t as int),
            None => total_length(intervals@) is None,
        },
{
    let mut total: i64 = 0;
    let mut i: usize = 0;
    assert(intervals@.take(0) =~= Seq::<(i64, i64)>::empty());
    while i < intervals.len()
        invariant
            i <= intervals@.len(),
            total_length(intervals@.take(i as int)) == Some(total as int),
        decreases intervals.len() - i,
    {
        let interval: (i64, i64) = intervals[i];
        proof {
            assert(intervals@.take(i + 1).drop_last() == intervals@.take(i as int));
            assert(intervals@.take(i + 1).last() == interval);
        }
        let step: Option<i64> = match interval.1.checked_sub(interval.0) {
            Some(width) => match width.checked_add(1) {
                Some(length) => total.checked_add(length),
                None => None,
            },
            None => None,
        };
        match step {
            Some(t) => {
                total = t;
            },
            None => {
                proof {
                    lemma_total_length_stops(intervals@, i + 1);
                }
                return None;
            },
        }
        i += 1;
    }
    assert(intervals@.take(intervals.len() as int) == intervals@);
    Some(total)
}

/// The number of ids that the ranges hold between them: the ranges are put
/// in order, merged, and their lengths summed.
pub fn count_fresh_ids(intervals: Vec<(i64, i64)>) -> (count: Option<i64>)
    ensures
        exists|sorted: Seq<(i64, i64)>| #[trigger]
            sorting_of(sorted, intervals@) && match count {
                Some(t) => total_length(merged(sorted)) == Some(t as int),
                None => total_length(merged(sorted)) is None,
            },
{
    let ghost given = intervals@;
    let all: Vec<(i64, i64)> = merge_all(intervals);
    let count: Option<i64> = sum_lengths(&all);
    proof {
        let sorted = choose|sorted: Seq<(i64, i64)>| #[trigger]
            sorting_of(sorted, given) && all@ == merged(sorted);
        assert(sorting_of(sorted, given) && match count {
            Some(t) => total_length(merged(sorted)) == Some(t as int),
            None => total_length(merged(sorted)) is None,
        });
    }
    count
}

} // verus!
