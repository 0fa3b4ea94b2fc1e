//! A dial with the numbers 0 to 99, turned left and right: how often it
//! stops at 0 and how often a turn passes a multiple of 100.
use crate::text::{chars_of, copy_range, line_views, parse_i32, read_i32, trim, trimmed};
use vstd::prelude::*;

verus! {

/// Where the dial points at the start.
pub const START: i32 = 50;

/// Why the turns have no count.
#[derive(Clone, Copy, Debug, PartialEq, Eq, Structural)]
pub enum DialError {
    /// What follows the first character of a line is no `i32`.
    BadNumber,
    /// A line is empty or does not start with `L` or `R`.
    BadInstruction,
    /// The count is more than an `i64` holds.
    Overflow,
}

/// Number of multiples of 100 that lie strictly between the two numbers.
pub open spec fn crossings(old: int, new: int) -> int {
    let a = lower(old, new);
    let b = upper(old, new);
    if b - a <= 1 {
        0
    } else {
        (b - 1) / 100 - a / 100
    }
}

/// The multiples of 100 strictly between two numbers are as many as
/// `crossings` says: they are the `crossings` multiples that follow the
/// smaller number.
pub proof fn lemma_crossings_count(old: int, new: int)
    ensures
        0 <= crossings(old, new),
        forall|k: int|
            (lower(old, new) < #[trigger] (100 * k) && 100 * k < upper(old, new)) <==> (lower(
                old,
                new,
            ) / 100 < k <= lower(old, new) / 100 + crossings(old, new)),
{
    let a = lower(old, new);
    let b = upper(old, new);
    assert forall|k: int| (a < #[trigger] (100 * k) && 100 * k < b) <==> (a / 100 < k <= a / 100
        + crossings(old, new)) by {
        if b - a > 1 {
            assert(crossings(old, new) == (b - 1) / 100 - a / 100);
        }
    }
}

/// The smaller of two numbers.
pub open spec fn lower(a: int, b: int) -> int {
    if a <= b {
        a
    } else {
        b
    }
}

/// The larger of two numbers.
pub open spec fn upper(a: int, b: int) -> int {
    if a <= b {
        b
    } else {
        a
    }
}

/// Counts the multiples of 100 strictly between two numbers.
pub fn count_crossings(old: i32, new: i32) -> (count: i32)
    ensures
        count == crossings(old as int, new as int),
        0 <= count,
{
    count_between(old as i64, new as i64) as i32
}

/// The signed size of the turn that a line orders: the number after its
/// first character, against the clock for `L` and with it for `R`; white
/// space around the line is ignored.
pub open spec fn parse_turn(line: Seq<char>) -> Result<int, DialError> {
    let t = trim(line);
    if t.len() == 0 {
        Err(DialError::BadInstruction)
    } else {
        match parse_i32(t.skip(1)) {
            None => Err(DialError::BadNumber),
            Some(n) => if t[0] == 'L' {
                Ok(-n)
            } else if t[0] == 'R' {
                Ok(n as int)
            } else {
                Err(DialError::BadInstruction)
            },
        }
    }
}

/// Reads the turn that a line orders.
pub fn read_turn(line: &str) -> (res: Result<i64, DialError>)
    ensures
        match res {
            Ok(delta) => parse_turn(line@) == Ok::<int, DialError>(delta as int) && -0x8000_0000
                <= delta <= 0x8000_0000,
            Err(e) => parse_turn(line@) == Err::<int, DialError>(e),
        },
{
    let t: Vec<char> = trimmed(&chars_of(line));
    if t.len() == 0 {
        return Err(DialError::BadInstruction);
    }
    let number_str: Vec<char> = copy_range(&t, 1, t.len());
    assert(number_str@ == t@.skip(1));
    let n: i32 = match read_i32(&number_str) {
        Some(v) => v,
        None => {
            return Err(DialError::BadNumber);
        },
    };
    if t[0] == 'L' {
        Ok(-(n as i64))
    } else if t[0] == 'R' {
        Ok(n as i64)
    } else {
        Err(DialError::BadInstruction)
    }
}

/// The dial and the counts.
pub struct Dial {
    /// Where the dial points, from 0 to 99.
    pub pos: int,
    /// How often it came to rest on 0.
    pub stops: int,
    /// The crossings counted for the turns.
    pub passes: int,
}

/// The dial after one more turn: the crossings between the old position and
/// the size of the turn are counted, the dial moves by the turn, and a stop
/// is counted where it comes to rest on 0.
pub open spec fn turned(d: Dial, delta: int) -> Dial {
    let pos = (d.pos + delta) % 100;
    Dial {
        pos,
        stops: if pos == 0 {
            d.stops + 1
        } else {
            d.stops
        },
        passes: d.passes + crossings(d.pos, delta),
    }
}

/// The dial after the turns that the lines order, or the first reason why a
/// line orders none.
pub open spec fn dial_after(lines: Seq<Seq<char>>) -> Result<Dial, DialError>
    decreases lines.len(),
{
    if lines.len() == 0 {
        Ok(Dial { pos: START as int, stops: 0, passes: 0 })
    } else {
        match dial_after(lines.drop_last()) {
            Err(e) => Err(e),
            Ok(d) => match parse_turn(lines.last()) {
                Err(e) => Err(e),
                Ok(delta) => Ok(turned(d, delta)),
            },
        }
    }
}

/// Once a line fails, so does every longer list of lines.
pub proof fn lemma_dial_stops(lines: Seq<Seq<char>>, k: int)
    requires
        0 <= k <= lines.len(),
        dial_after(lines.take(k)) is Err,
    ensures
        dial_after(lines) == dial_after(lines.take(k)),
    decreases lines.len() - k,
{
    if k < lines.len() {
        assert(lines.take(k + 1).drop_last() == lines.take(k));
        lemma_dial_stops(lines, k + 1);
    } else {
        assert(lines.take(k) == lines);
    }
}

/// The crossings of one turn are few.
pub proof fn lemma_crossings_bound(old: int, new: int)
    requires
        0 <= old < 100,
        -0x8000_0000 <= new <= 0x8000_0000,
    ensures
        0 <= crossings(old, new) <= 21_474_837,
{
}

/// The number of stops at 0 plus the number of crossings counted for the
/// turns that the lines order.
pub fn solve01(lines: &Vec<String>) -> (res: Result<i64, DialError>)
    ensures
        match dial_after(line_views(lines@)) {
            Err(e) => res == Err::<i64, DialError>(e),
            Ok(d) => if d.stops + d.passes <= i64::MAX {
                res == Ok::<i64, DialError>((d.stops + d.passes) as i64)
            } else {
                res == Err::<i64, DialError>(DialError::Overflow)
            },
        },
{
    let mut pos: i32 = START;
    let mut stops: i128 = 0;
    let mut passes: i128 = 0;
    let mut i: usize = 0;
    let ghost all = line_views(lines@);
    assert(all.take(0) =~= Seq::<Seq<char>>::empty());
    while i < lines.len()
        invariant
            i <= lines.len(),
            all == line_views(lines@),
            0 <= pos < 100,
            0 <= stops <= i,
            0 <= passes <= i * 21_474_837,
            dial_after(all.take(i as int)) == Ok::<Dial, DialError>(
                Dial { pos: pos as int, stops: stops as int, passes: passes as int },
            ),
        decreases lines.len() - i,
    {
        proof {
            assert(all.take(i + 1).drop_last() == all.take(i as int));
            assert(all.take(i + 1).last() == lines@[i as int]@);
        }
        let delta: i64 = match read_turn(lines[i].as_str()) {
            Ok(d) => d,
            Err(e) => {
                proof {
                    lemma_dial_stops(all, i + 1);
                }
                return Err(e);
            },
        };
        let old_pos: i32 = pos;
        proof {
            lemma_crossings_bound(old_pos as int, delta as int);
        }
        passes += count_between(old_pos as i64, delta) as i128;
        pos = match (old_pos as i64 + delta).checked_rem_euclid(100) {
            Some(r) => r as i32,
            None => 0,
        };
        if pos == 0 {
            stops += 1;
        }
        i += 1;
    }
    assert(all.take(lines.len() as int) == all);
    let total: i128 = stops + passes;
    if total > i64::MAX as i128 {
        Err(DialError::Overflow)
    } else {
        Ok(total as i64)
    }
}

/// Counts the multiples of 100 strictly between two numbers.
fn count_between(old: i64, new: i64) -> (count: i64)
    requires
        -0x1_0000_0000 <= old <= 0x1_0000_0000,
        -0x1_0000_0000 <= new <= 0x1_0000_0000,
    ensures
        count == crossings(old as int, new as int),
{
    let a: i64 = if old <= new {
        old
    } else {
        new
    };
    let b: i64 = if old <= new {
        new
    } else {
        old
    };
    if b - a <= 1 {
        return 0;
    }
    let upper: i64 = match (b - 1).checked_div_euclid(100) {
        Some(q) => q,
        None => 0,
    };
    let lower: i64 = match a.checked_div_euclid(100) {
        Some(q) => q,
        None => 0,
    };
    upper - lower
}

} // verus!
