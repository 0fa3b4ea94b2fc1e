//! Battery banks: the largest number that a bank's digits write when a fixed
//! count of them is switched on and read in order.
use crate::text::line_bytes;
use vstd::prelude::*;

verus! {

/// Number of batteries switched on in the second part.
pub const DEPTH: usize = 12;

/// Every byte is at least the character `0`, so that it has a digit value.
pub open spec fn is_bank(s: Seq<u8>) -> bool {
    forall|i: int| 0 <= i < s.len() ==> #[trigger] s[i] >= 0x30
}

/// The value of the byte at position `i` as a digit.
pub open spec fn digit(s: Seq<u8>, i: int) -> int {
    s[i] - 0x30
}

/// The two-digit number that positions `i` and `j` write.
pub open spec fn pair_value(s: Seq<u8>, i: int, j: int) -> int {
    digit(s, i) * 10 + digit(s, j)
}

/// `m` is the largest two-digit number that two positions of `s` write in
/// order, or 0 where `s` has no two positions.
pub open spec fn is_best_pair(s: Seq<u8>, m: int) -> bool {
    &&& forall|i: int, j: int| 0 <= i < j < s.len() ==> #[trigger] pair_value(s, i, j) <= m
    &&& m == 0 || exists|i: int, j: int| 0 <= i < j < s.len() && #[trigger] pair_value(s, i, j) == m
}

/// The largest number that two batteries of the bank write.
pub fn part_1(bytes: &[u8]) -> (m: i64)
    requires
        is_bank(bytes@),
    ensures
        is_best_pair(bytes@, m as int),
{
    let n: usize = bytes.len();
    let mut m: i64 = 0;
    let mut i: usize = 0;
    while i < n
        invariant
            n == bytes@.len(),
            i <= n,
            is_bank(bytes@),
            0 <= m <= 2277,
            forall|a: int, b: int| 0 <= a < i && a < b < n ==> #[trigger] pair_value(bytes@, a, b) <= m,
            m == 0 || exists|a: int, b: int|
                0 <= a < b < n && #[trigger] pair_value(bytes@, a, b) == m,
        decreases n - i,
    {
        let d1: i64 = (bytes[i] - 0x30) as i64;
        let mut j: usize = i + 1;
        while j < n
            invariant
                n == bytes@.len(),
                i < n,
                i < j <= n,
                is_bank(bytes@),
                d1 == digit(bytes@, i as int),
                0 <= m <= 2277,
                forall|a: int, b: int|
                    0 <= a < i && a < b < n ==> #[trigger] pair_value(bytes@, a, b) <= m,
                forall|b: int| i < b < j ==> #[trigger] pair_value(bytes@, i as int, b) <= m,
                m == 0 || exists|a: int, b: int|
                    0 <= a < b < n && #[trigger] pair_value(bytes@, a, b) == m,
            decreases n - j,
        {
            let d2: i64 = (bytes[j] - 0x30) as i64;
            let num: i64 = d1 * 10 + d2;
            assert(num == pair_value(bytes@, i as int, j as int));
            if num > m {
                m = num;
            }
            j += 1;
        }
        i += 1;
    }
    m
}

/// Position of the first largest byte among `lo <= i <= hi`.
pub open spec fn first_max(s: Seq<u8>, lo: int, hi: int) -> int
    decreases hi - lo,
{
    if hi <= lo {
        lo
    } else {
        let k = first_max(s, lo, hi - 1);
        if s[hi] > s[k] {
            hi
        } else {
            k
        }
    }
}

/// The number written by `remaining` digits picked from position `index` on,
/// each the first largest that leaves enough positions for the rest, after
/// the digits that wrote `acc`.
pub open spec fn pick(s: Seq<u8>, index: int, remaining: int, acc: int) -> int
    decreases remaining,
{
    if remaining <= 0 {
        acc
    } else {
        let k = first_max(s, index, s.len() - remaining);
        pick(s, k + 1, remaining - 1, acc * 10 + digit(s, k))
    }
}

/// The number that the bank's twelve picked batteries write.
pub open spec fn joltage(s: Seq<u8>) -> int {
    pick(s, 0, DEPTH as int, 0)
}

/// `first_max` lies in its window, holds the window's largest byte, and no
/// earlier position of the window holds it.
pub proof fn lemma_first_max(s: Seq<u8>, lo: int, hi: int)
    requires
        lo <= hi,
    ensures
        lo <= first_max(s, lo, hi) <= hi,
        forall|i: int| lo <= i <= hi ==> #[trigger] s[i] <= s[first_max(s, lo, hi)],
        forall|i: int| lo <= i < first_max(s, lo, hi) ==> #[trigger] s[i] < s[first_max(s, lo, hi)],
    decreases hi - lo,
{
    if hi > lo {
        lemma_first_max(s, lo, hi - 1);
    }
}

/// The largest number that twelve batteries of the bank write, read in
/// order.
pub fn part_2(bytes: &[u8]) -> (value: i64)
    requires
        is_bank(bytes@),
        bytes@.len() >= DEPTH,
    ensures
        value == joltage(bytes@),
{
    let n: usize = bytes.len();
    let mut max_value: i64 = 0;
    let mut remaining_digits: usize = DEPTH;
    let mut index: usize = 0;
    while remaining_digits > 0
        invariant
            n == bytes@.len(),
            is_bank(bytes@),
            remaining_digits <= DEPTH,
            index + remaining_digits <= n,
            0 <= max_value <= cap(DEPTH - remaining_digits),
            joltage(bytes@) == pick(bytes@, index as int, remaining_digits as int, max_value as int),
        decreases remaining_digits,
    {
        let mut max_digit: u8 = bytes[index];
        let mut max_digit_index: usize = index;
        let last: usize = n - remaining_digits;
        let mut i: usize = index;
        while i < last
            invariant
                n == bytes@.len(),
                index <= i <= last,
                last < n,
                index <= max_digit_index <= i,
                max_digit == bytes@[max_digit_index as int],
                max_digit_index == first_max(bytes@, index as int, i as int),
            decreases last - i,
        {
            i += 1;
            if bytes[i] > max_digit {
                max_digit = bytes[i];
                max_digit_index = i;
            }
        }
        proof {
            lemma_cap(DEPTH - remaining_digits);
            lemma_cap(DEPTH - remaining_digits + 1);
        }
        max_value = max_value * 10 + (max_digit - 0x30) as i64;
        index = max_digit_index + 1;
        remaining_digits -= 1;
    }
    max_value
}

/// The largest number that `k` bytes can write when read as digits.
pub open spec fn cap(k: int) -> int
    decreases k,
{
    if k <= 0 {
        0
    } else {
        cap(k - 1) * 10 + 207
    }
}

proof fn lemma_cap(k: int)
    requires
        0 <= k <= 12,
    ensures
        0 <= cap(k) <= 22_999_999_999_977,
    decreases 12 - k,
{
    if k < 12 {
        lemma_cap(k + 1);
        lemma_cap_nonnegative(k);
    } else {
        reveal_with_fuel(cap, 13);
    }
}

proof fn lemma_cap_nonnegative(k: int)
    ensures
        0 <= cap(k),
    decreases k,
{
    if k > 0 {
        lemma_cap_nonnegative(k - 1);
    }
}

/// Why the banks have no total.
#[derive(Clone, Copy, Debug, PartialEq, Eq, Structural)]
pub enum BankError {
    /// A bank has fewer batteries than are to be switched on.
    TooShort,
    /// A bank holds a byte below the character `0`.
    BadByte,
    /// The total is more than an `i64` holds.
    Overflow,
}

/// The joltage of one bank, or why it has none.
pub open spec fn bank_value(s: Seq<u8>) -> Result<int, BankError> {
    if s.len() < DEPTH {
        Err(BankError::TooShort)
    } else if !is_bank(s) {
        Err(BankError::BadByte)
    } else {
        Ok(joltage(s))
    }
}

/// The sum of the joltages of the banks, or the first reason why there is
/// none.
pub open spec fn total_joltage(banks: Seq<Seq<u8>>) -> Result<int, BankError>
    decreases banks.len(),
{
    if banks.len() == 0 {
        Ok(0)
    } else {
        match total_joltage(banks.drop_last()) {
            Err(e) => Err(e),
            Ok(t) => match bank_value(banks.last()) {
                Err(e) => Err(e),
                Ok(v) => if t + v > i64::MAX {
                    Err(BankError::Overflow)
                } else {
                    Ok(t + v)
                },
            },
        }
    }
}

/// Decides whether every byte has a digit value.
pub fn check_bank(bytes: &[u8]) -> (ok: bool)
    ensures
        ok == is_bank(bytes@),
{
    let mut i: usize = 0;
    while i < bytes.len()
        invariant
            i <= bytes@.len(),
            forall|k: int| 0 <= k < i ==> #[trigger] bytes@[k] >= 0x30,
        decreases bytes.len() - i,
    {
        if bytes[i] < 0x30 {
            return false;
        }
        i += 1;
    }
    true
}

/// The sum over the lines of the largest number that twelve batteries of the
/// bank write.
pub fn solve03(lines: &Vec<String>) -> (res: Result<i64, BankError>)
    ensures
        match res {
            Ok(t) => total_joltage(line_bytes(lines@)) == Ok::<int, BankError>(t as int),
            Err(e) => total_joltage(line_bytes(lines@)) == Err::<int, BankError>(e),
        },
{
    let mut total: i64 = 0;
    let mut i: usize = 0;
    assert(line_bytes(lines@).take(0) =~= Seq::<Seq<u8>>::empty());
    while i < lines.len()
        invariant
            i <= lines.len(),
            0 <= total,
            total_joltage(line_bytes(lines@).take(i as int)) == Ok::<int, BankError>(total as int),
        decreases lines.len() - i,
    {
        let bytes: &[u8] = lines[i].as_str().as_bytes();
        proof {
            let t = line_bytes(lines@).take(i + 1);
            assert(t.drop_last() == line_bytes(lines@).take(i as int));
            assert(t.last() == bytes@);
        }
        if bytes.len() < DEPTH {
            proof {
                lemma_total_stops(line_bytes(lines@), i + 1);
            }
            return Err(BankError::TooShort);
        }
        if !check_bank(bytes) {
            proof {
                lemma_total_stops(line_bytes(lines@), i + 1);
            }
            return Err(BankError::BadByte);
        }
        let m: i64 = part_2(bytes);
        proof {
            lemma_joltage_nonnegative(bytes@);
        }
        match total.checked_add(m) {
            Some(t) => {
                total = t;
            },
            None => {
                proof {
                    lemma_total_stops(line_bytes(lines@), i + 1);
                }
                return Err(BankError::Overflow);
            },
        }
        i += 1;
    }
    assert(line_bytes(lines@).take(lines.len() as int) == line_bytes(lines@));
    Ok(total)
}

/// Once a bank fails, so does every longer list of banks, for the same
/// reason.
pub proof fn lemma_total_stops(banks: Seq<Seq<u8>>, k: int)
    requires
        0 <= k <= banks.len(),
        total_joltage(banks.take(k)) is Err,
    ensures
        total_joltage(banks) == total_joltage(banks.take(k)),
    decreases banks.len() - k,
{
    if k < banks.len() {
        assert(banks.take(k + 1).drop_last() == banks.take(k));
        lemma_total_stops(banks, k + 1);
    } else {
        assert(banks.take(k) == banks);
    }
}

/// A joltage is never negative.
pub proof fn lemma_joltage_nonnegative(s: Seq<u8>)
    requires
        is_bank(s),
        s.len() >= DEPTH,
    ensures
        0 <= joltage(s),
{
    lemma_pick_nonnegative(s, 0, DEPTH as int, 0);
}

proof fn lemma_pick_nonnegative(s: Seq<u8>, index: int, remaining: int, acc: int)
    requires
        is_bank(s),
        0 <= index,
        0 <= remaining,
        index + remaining <= s.len(),
        0 <= acc,
    ensures
        acc <= pick(s, index, remaining, acc),
    decreases remaining,
{
    if remaining > 0 {
        lemma_first_max(s, index, s.len() - remaining);
        let k = first_max(s, index, s.len() - remaining);
        assert(s[k] >= 0x30);
        lemma_pick_nonnegative(s, k + 1, remaining - 1, acc * 10 + digit(s, k));
    }
}

// ---------------------------------------------------------------------------
// The pick is the best choice
// ---------------------------------------------------------------------------

/// Every byte is one of the characters `0` to `9`.
pub open spec fn is_digits(s: Seq<u8>) -> bool {
    forall|i: int| 0 <= i < s.len() ==> 0x30 <= #[trigger] s[i] <= 0x39
}

/// `idx` names positions of `s` from `lo` on, each after the one before.
pub open spec fn choice(s: Seq<u8>, idx: Seq<int>, lo: int) -> bool {
    &&& forall|k: int| 0 <= k < idx.len() ==> lo <= #[trigger] idx[k] < s.len()
    &&& forall|k: int, l: int| 0 <= k < l < idx.len() ==> idx[k] < idx[l]
}

/// The number that the digits at the chosen positions write after the
/// digits that wrote `acc`.
pub open spec fn value_of(s: Seq<u8>, idx: Seq<int>, acc: int) -> int
    decreases idx.len(),
{
    if idx.len() == 0 {
        acc
    } else {
        value_of(s, idx.drop_first(), acc * 10 + digit(s, idx[0]))
    }
}

/// The positions that `pick` takes.
pub open spec fn picked(s: Seq<u8>, index: int, remaining: int) -> Seq<int>
    decreases remaining,
{
    if remaining <= 0 {
        Seq::empty()
    } else {
        let k = first_max(s, index, s.len() - remaining);
        seq![k] + picked(s, k + 1, remaining - 1)
    }
}

/// After a smaller start, no choice of as many digits writes as much as the
/// pick writes after a larger start.
pub proof fn lemma_pick_beats_smaller_start(
    s: Seq<u8>,
    idx: Seq<int>,
    index: int,
    acc1: int,
    acc2: int,
)
    requires
        is_digits(s),
        choice(s, idx, 0),
        0 <= index,
        index + idx.len() <= s.len(),
        acc1 < acc2,
    ensures
        value_of(s, idx, acc1) < pick(s, index, idx.len() as int, acc2),
    decreases idx.len(),
{
    if idx.len() > 0 {
        let r = idx.len() as int;
        lemma_first_max(s, index, s.len() - r);
        let k = first_max(s, index, s.len() - r);
        let tail = idx.drop_first();
        assert(choice(s, tail, 0)) by {
            assert forall|t: int| 0 <= t < tail.len() implies 0 <= #[trigger] tail[t] < s.len() by {
                assert(tail[t] == idx[t + 1]);
            }
            assert forall|t: int, l: int| 0 <= t < l < tail.len() implies tail[t] < tail[l] by {
                assert(tail[t] == idx[t + 1] && tail[l] == idx[l + 1]);
            }
        }
        assert(0x30 <= s[idx[0]] <= 0x39);
        assert(0x30 <= s[k] <= 0x39);
        lemma_pick_beats_smaller_start(
            s,
            tail,
            k + 1,
            acc1 * 10 + digit(s, idx[0]),
            acc2 * 10 + digit(s, k),
        );
    }
}

/// The positions of a choice lie at least as far apart as they are many.
pub proof fn lemma_choice_spread(s: Seq<u8>, idx: Seq<int>, lo: int, k: int)
    requires
        choice(s, idx, lo),
        0 <= k < idx.len(),
    ensures
        idx[0] + k <= idx[k],
    decreases k,
{
    if k > 0 {
        lemma_choice_spread(s, idx, lo, k - 1);
    }
}

/// No choice of as many digits from `index` on writes more than the pick.
pub proof fn lemma_pick_is_upper_bound(s: Seq<u8>, idx: Seq<int>, index: int, acc: int)
    requires
        is_digits(s),
        choice(s, idx, index),
        0 <= index,
    ensures
        value_of(s, idx, acc) <= pick(s, index, idx.len() as int, acc),
    decreases idx.len(),
{
    if idx.len() > 0 {
        let r = idx.len() as int;
        let first = idx[0];
        lemma_choice_spread(s, idx, index, r - 1);
        assert(first <= s.len() - r);
        lemma_first_max(s, index, s.len() - r);
        let k = first_max(s, index, s.len() - r);
        let tail = idx.drop_first();
        assert(s[first] <= s[k]);
        assert(0x30 <= s[first] <= 0x39);
        assert(0x30 <= s[k] <= 0x39);
        if s[first] == s[k] {
            assert(k <= first) by {
                if first < k {
                    assert(s[first] < s[k]);
                }
            }
            assert(choice(s, tail, k + 1)) by {
                assert forall|t: int| 0 <= t < tail.len() implies k + 1 <= #[trigger] tail[t]
                    < s.len() by {
                    assert(tail[t] == idx[t + 1]);
                    assert(idx[0] < idx[t + 1]);
                }
                assert forall|t: int, l: int| 0 <= t < l < tail.len() implies tail[t] < tail[l] by {
                    assert(tail[t] == idx[t + 1] && tail[l] == idx[l + 1]);
                }
            }
            lemma_pick_is_upper_bound(s, tail, k + 1, acc * 10 + digit(s, k));
        } else {
            assert(choice(s, tail, 0)) by {
                assert forall|t: int| 0 <= t < tail.len() implies 0 <= #[trigger] tail[t]
                    < s.len() by {
                    assert(tail[t] == idx[t + 1]);
                }
                assert forall|t: int, l: int| 0 <= t < l < tail.len() implies tail[t] < tail[l] by {
                    assert(tail[t] == idx[t + 1] && tail[l] == idx[l + 1]);
                }
            }
            lemma_pick_beats_smaller_start(
                s,
                tail,
                k + 1,
                acc * 10 + digit(s, first),
                acc * 10 + digit(s, k),
            );
        }
    }
}

/// The pick is itself a choice, and writes what `pick` says.
pub proof fn lemma_pick_is_a_choice(s: Seq<u8>, index: int, remaining: int, acc: int)
    requires
        0 <= index,
        0 <= remaining,
        index + remaining <= s.len(),
    ensures
        picked(s, index, remaining).len() == remaining,
        choice(s, picked(s, index, remaining), index),
        value_of(s, picked(s, index, remaining), acc) == pick(s, index, remaining, acc),
    decreases remaining,
{
    if remaining > 0 {
        lemma_first_max(s, index, s.len() - remaining);
        let k = first_max(s, index, s.len() - remaining);
        let rest = picked(s, k + 1, remaining - 1);
        let all = picked(s, index, remaining);
        lemma_pick_is_a_choice(s, k + 1, remaining - 1, acc * 10 + digit(s, k));
        assert(all.drop_first() =~= rest);
        assert(all[0] == k);
        assert forall|t: int| 0 <= t < all.len() implies index <= #[trigger] all[t] < s.len() by {
            if t > 0 {
                assert(all[t] == rest[t - 1]);
            }
        }
        assert forall|t: int, l: int| 0 <= t < l < all.len() implies all[t] < all[l] by {
            assert(all[l] == rest[l - 1]);
            if t > 0 {
                assert(all[t] == rest[t - 1]);
            }
        }
    }
}

/// In a bank of true digits the joltage is the largest number that twelve
/// of its digits write when read in order: no choice of twelve writes more,
/// and one choice writes exactly it.
pub proof fn lemma_joltage_is_largest(s: Seq<u8>)
    requires
        is_digits(s),
        s.len() >= DEPTH,
    ensures
        forall|idx: Seq<int>|
            choice(s, idx, 0) && idx.len() == DEPTH ==> #[trigger] value_of(s, idx, 0) <= joltage(s),
        exists|idx: Seq<int>|
            choice(s, idx, 0) && idx.len() == DEPTH && #[trigger] value_of(s, idx, 0) == joltage(s),
{
    assert forall|idx: Seq<int>| choice(s, idx, 0) && idx.len() == DEPTH implies #[trigger] value_of(
        s,
        idx,
        0,
    ) <= joltage(s) by {
        lemma_pick_is_upper_bound(s, idx, 0, 0);
    }
    lemma_pick_is_a_choice(s, 0, DEPTH as int, 0);
    let best = picked(s, 0, DEPTH as int);
    assert(choice(s, best, 0) && best.len() == DEPTH && value_of(s, best, 0) == joltage(s));
}

} // verus!
