//! Text handling shared by the puzzles: characters of a line, trimming,
//! splitting and decimal numbers, each with its meaning as a function on
//! sequences of characters.
use vstd::prelude::*;

verus! {

broadcast use vstd::string::group_string_axioms;

/// The characters of a string.
pub fn chars_of(s: &str) -> (v: Vec<char>)
    ensures
        v@ == s@,
{
    let mut v: Vec<char> = Vec::new();
    for c in it: s.chars()
        invariant
            it.seq() == s@,
            v@ == s@.take(it.index()),
    {
        v.push(c);
        assert(s@.take(it.index() + 1) == s@.take(it.index()).push(s@[it.index()]));
    }
    assert(s@.take(s@.len() as int) == s@);
    v
}

/// White space as Unicode defines it (the property `White_Space`).
pub open spec fn is_space(c: char) -> bool {
    let u = c as u32;
    ||| 0x09 <= u <= 0x0d
    ||| u == 0x20
    ||| u == 0x85
    ||| u == 0xa0
    ||| u == 0x1680
    ||| 0x2000 <= u <= 0x200a
    ||| u == 0x2028
    ||| u == 0x2029
    ||| u == 0x202f
    ||| u == 0x205f
    ||| u == 0x3000
}

/// Decides whether a character is white space.
pub fn is_space_char(c: char) -> (b: bool)
    ensures
        b == is_space(c),
{
    let u: u32 = c as u32;
    (0x09 <= u && u <= 0x0d) || u == 0x20 || u == 0x85 || u == 0xa0 || u == 0x1680 || (0x2000 <= u
        && u <= 0x200a) || u == 0x2028 || u == 0x2029 || u == 0x202f || u == 0x205f || u == 0x3000
}

// ---------------------------------------------------------------------------
// Pieces of a line
// ---------------------------------------------------------------------------

/// The views of a list of character vectors.
pub open spec fn views(p: Seq<Vec<char>>) -> Seq<Seq<char>> {
    p.map_values(|v: Vec<char>| v@)
}

/// The characters `lo <= i < hi` of `v`.
pub fn copy_range(v: &Vec<char>, lo: usize, hi: usize) -> (out: Vec<char>)
    requires
        lo <= hi <= v@.len(),
    ensures
        out@ == v@.subrange(lo as int, hi as int),
{
    let mut out: Vec<char> = Vec::new();
    let mut i: usize = lo;
    while i < hi
        invariant
            lo <= i <= hi <= v@.len(),
            out@ == v@.subrange(lo as int, i as int),
        decreases hi - i,
    {
        out.push(v[i]);
        assert(v@.subrange(lo as int, i + 1) == v@.subrange(lo as int, i as int).push(v@[i as int]));
        i += 1;
    }
    out
}

/// `s` without the white space at its start.
pub open spec fn trim_start(s: Seq<char>) -> Seq<char>
    decreases s.len(),
{
    if s.len() > 0 && is_space(s[0]) {
        trim_start(s.drop_first())
    } else {
        s
    }
}

/// `s` without the white space at its end.
pub open spec fn trim_end(s: Seq<char>) -> Seq<char>
    decreases s.len(),
{
    if s.len() > 0 && is_space(s.last()) {
        trim_end(s.drop_last())
    } else {
        s
    }
}

/// `s` without the white space at either end.
pub open spec fn trim(s: Seq<char>) -> Seq<char> {
    trim_end(trim_start(s))
}

/// Removes the white space at both ends.
pub fn trimmed(v: &Vec<char>) -> (out: Vec<char>)
    ensures
        out@ == trim(v@),
{
    let n: usize = v.len();
    let mut lo: usize = 0;
    assert(v@.subrange(0, n as int) == v@);
    while lo < n && is_space_char(v[lo])
        invariant
            n == v@.len(),
            lo <= n,
            trim_start(v@) == trim_start(v@.subrange(lo as int, n as int)),
        decreases n - lo,
    {
        assert(v@.subrange(lo as int, n as int).drop_first() == v@.subrange(lo + 1, n as int));
        lo += 1;
    }
    assert(trim_start(v@) == v@.subrange(lo as int, n as int));
    let mut hi: usize = n;
    while hi > lo && is_space_char(v[hi - 1])
        invariant
            n == v@.len(),
            lo <= hi <= n,
            trim(v@) == trim_end(v@.subrange(lo as int, hi as int)),
        decreases hi - lo,
    {
        assert(v@.subrange(lo as int, hi as int).drop_last() == v@.subrange(lo as int, hi - 1));
        hi -= 1;
    }
    copy_range(v, lo, hi)
}

/// Position of the first `c` in `s`, or the length of `s` where there is none.
pub open spec fn find_char(s: Seq<char>, c: char) -> int
    decreases s.len(),
{
    if s.len() == 0 || s[0] == c {
        0
    } else {
        1 + find_char(s.drop_first(), c)
    }
}

/// `find_char` is the least position that holds `c`.
pub proof fn lemma_find_char(s: Seq<char>, c: char)
    ensures
        0 <= find_char(s, c) <= s.len(),
        forall|i: int| 0 <= i < find_char(s, c) ==> s[i] != c,
        find_char(s, c) < s.len() ==> s[find_char(s, c)] == c,
    decreases s.len(),
{
    if s.len() > 0 && s[0] != c {
        let t = s.drop_first();
        lemma_find_char(t, c);
        assert forall|i: int| 0 <= i < find_char(s, c) implies s[i] != c by {
            if i > 0 {
                assert(t[i - 1] == s[i]);
            }
        }
        if find_char(s, c) < s.len() {
            assert(t[find_char(t, c)] == s[find_char(s, c)]);
        }
    }
}

/// The two sides of the first `sep` in `s`, if there is one.
pub open spec fn split_once(s: Seq<char>, sep: char) -> Option<(Seq<char>, Seq<char>)> {
    let k = find_char(s, sep);
    if k < s.len() {
        Some((s.take(k), s.skip(k + 1)))
    } else {
        None
    }
}

/// Splits at the first `sep`.
pub fn split_first(v: &Vec<char>, sep: char) -> (parts: Option<(Vec<char>, Vec<char>)>)
    ensures
        match parts {
            Some((left, right)) => split_once(v@, sep) == Some((left@, right@)),
            None => split_once(v@, sep) is None,
        },
{
    let n: usize = v.len();
    let mut k: usize = 0;
    while k < n && v[k] != sep
        invariant
            n == v@.len(),
            k <= n,
            forall|i: int| 0 <= i < k ==> v@[i] != sep,
        decreases n - k,
    {
        k += 1;
    }
    proof {
        lemma_find_char(v@, sep);
        let f = find_char(v@, sep);
        if f < k {
        }
        if k < f {
        }
        assert(f == k);
    }
    if k < n {
        let left: Vec<char> = copy_range(v, 0, k);
        let right: Vec<char> = copy_range(v, k + 1, n);
        Some((left, right))
    } else {
        None
    }
}

/// The pieces of `s` between occurrences of `sep`; there is one piece more
/// than there are separators, and a piece may be empty.
pub open spec fn split(s: Seq<char>, sep: char) -> Seq<Seq<char>>
    decreases s.len(),
{
    if s.len() == 0 {
        seq![Seq::empty()]
    } else {
        let p = split(s.drop_last(), sep);
        if s.last() == sep {
            p.push(Seq::empty())
        } else {
            p.update(p.len() - 1, p.last().push(s.last()))
        }
    }
}

/// Splits at every `sep`.
pub fn split_at_char(v: &Vec<char>, sep: char) -> (pieces: Vec<Vec<char>>)
    ensures
        views(pieces@) == split(v@, sep),
{
    let n: usize = v.len();
    let mut pieces: Vec<Vec<char>> = Vec::new();
    let mut cur: Vec<char> = Vec::new();
    let mut i: usize = 0;
    assert(views(pieces@).push(cur@) =~= split(v@.take(0), sep));
    while i < n
        invariant
            n == v@.len(),
            i <= n,
            views(pieces@).push(cur@) == split(v@.take(i as int), sep),
        decreases n - i,
    {
        let c: char = v[i];
        proof {
            assert(v@.take(i + 1).drop_last() == v@.take(i as int));
            assert(v@.take(i + 1).last() == c);
        }
        let ghost before = views(pieces@).push(cur@);
        if c == sep {
            pieces.push(cur);
            cur = Vec::new();
            assert(views(pieces@).push(cur@) =~= before.push(Seq::empty()));
        } else {
            cur.push(c);
            assert(views(pieces@).push(cur@) =~= before.update(
                before.len() - 1,
                before.last().push(c),
            ));
        }
        i += 1;
    }
    let ghost before = views(pieces@).push(cur@);
    pieces.push(cur);
    assert(views(pieces@) =~= before);
    assert(v@.take(n as int) == v@);
    pieces
}

/// White space within ASCII: space, tab, line feed, form feed, carriage
/// return.
pub open spec fn is_ascii_space(c: char) -> bool {
    let u = c as u32;
    u == 0x20 || u == 0x09 || u == 0x0a || u == 0x0c || u == 0x0d
}

/// What separates words: all white space, or only that of ASCII.
pub open spec fn is_gap(c: char, ascii_only: bool) -> bool {
    if ascii_only {
        is_ascii_space(c)
    } else {
        is_space(c)
    }
}

/// The words of `s`: its longest runs of characters that are no white space.
pub open spec fn words(s: Seq<char>, ascii_only: bool) -> Seq<Seq<char>>
    decreases s.len(),
{
    if s.len() == 0 {
        Seq::empty()
    } else {
        let p = words(s.drop_last(), ascii_only);
        if is_gap(s.last(), ascii_only) {
            p
        } else if s.len() >= 2 && !is_gap(s[s.len() - 2], ascii_only) && p.len() > 0 {
            p.update(p.len() - 1, p.last().push(s.last()))
        } else {
            p.push(seq![s.last()])
        }
    }
}

/// Splits into words.
pub fn split_words(v: &Vec<char>, ascii_only: bool) -> (pieces: Vec<Vec<char>>)
    ensures
        views(pieces@) == words(v@, ascii_only),
{
    let n: usize = v.len();
    let mut pieces: Vec<Vec<char>> = Vec::new();
    let mut cur: Vec<char> = Vec::new();
    let mut i: usize = 0;
    assert(views(pieces@) =~= words(v@.take(0), ascii_only));
    while i < n
        invariant
            n == v@.len(),
            i <= n,
            cur@.len() > 0 <==> (i > 0 && !is_gap(v@[i - 1], ascii_only)),
            cur@.len() > 0 ==> views(pieces@).push(cur@) == words(v@.take(i as int), ascii_only),
            cur@.len() == 0 ==> views(pieces@) == words(v@.take(i as int), ascii_only),
        decreases n - i,
    {
        let c: char = v[i];
        proof {
            assert(v@.take(i + 1).drop_last() == v@.take(i as int));
            assert(v@.take(i + 1).last() == c);
            if i > 0 {
                assert(v@.take(i + 1)[i - 1] == v@[i - 1]);
            }
        }
        let gap: bool = if ascii_only {
            let u: u32 = c as u32;
            u == 0x20 || u == 0x09 || u == 0x0a || u == 0x0c || u == 0x0d
        } else {
            is_space_char(c)
        };
        let ghost done = views(pieces@);
        let ghost word = cur@;
        if gap {
            if cur.len() > 0 {
                pieces.push(cur);
                cur = Vec::new();
                assert(views(pieces@) =~= done.push(word));
            }
        } else {
            cur.push(c);
            proof {
                if word.len() > 0 {
                    assert(done.push(cur@) =~= done.push(word).update(
                        done.len() as int,
                        word.push(c),
                    ));
                } else {
                    assert(cur@ =~= seq![c]);
                }
            }
        }
        i += 1;
    }
    assert(v@.take(n as int) == v@);
    if cur.len() > 0 {
        let ghost done = views(pieces@);
        let ghost word = cur@;
        pieces.push(cur);
        assert(views(pieces@) =~= done.push(word));
    }
    pieces
}

// ---------------------------------------------------------------------------
// Decimal numbers
// ---------------------------------------------------------------------------

/// One of the characters `0` to `9`.
pub open spec fn is_digit(c: char) -> bool {
    0x30 <= c as u32 <= 0x39
}

/// The value of a digit character.
pub open spec fn digit_of(c: char) -> int {
    c as u32 - 0x30
}

/// Every character is a digit.
pub open spec fn all_digits(s: Seq<char>) -> bool {
    forall|i: int| 0 <= i < s.len() ==> is_digit(#[trigger] s[i])
}

/// The number that a string of digits writes in base ten.
pub open spec fn digits_value(s: Seq<char>) -> int
    decreases s.len(),
{
    if s.len() == 0 {
        0
    } else {
        digits_value(s.drop_last()) * 10 + digit_of(s.last())
    }
}

/// The digits of a number text: what follows its sign, if it has one.
pub open spec fn number_body(s: Seq<char>) -> Seq<char> {
    if s.len() > 0 && (s[0] == '-' || s[0] == '+') {
        s.drop_first()
    } else {
        s
    }
}

/// The integer that `s` writes: an optional `+` or `-` and then one digit
/// or more, nothing else.
pub open spec fn parse_int(s: Seq<char>) -> Option<int> {
    let body = number_body(s);
    if body.len() == 0 || !all_digits(body) {
        None
    } else if s[0] == '-' {
        Some(-digits_value(body))
    } else {
        Some(digits_value(body))
    }
}

/// The integer that `s` writes, where it is at least `-limit` and less than
/// `limit`.
pub open spec fn parse_within(s: Seq<char>, limit: int) -> Option<int> {
    match parse_int(s) {
        Some(x) => if -limit <= x < limit {
            Some(x)
        } else {
            None
        },
        None => None,
    }
}

/// The `i64` that `s` writes.
pub open spec fn parse_i64(s: Seq<char>) -> Option<i64> {
    match parse_within(s, 0x8000_0000_0000_0000) {
        Some(x) => Some(x as i64),
        None => None,
    }
}

/// The `i32` that `s` writes.
pub open spec fn parse_i32(s: Seq<char>) -> Option<i32> {
    match parse_within(s, 0x8000_0000) {
        Some(x) => Some(x as i32),
        None => None,
    }
}

/// Reads a decimal integer that lies within the limit.
pub fn read_within(v: &Vec<char>, limit: i128) -> (res: Option<i128>)
    requires
        0 < limit <= 0x1_0000_0000_0000_0000,
    ensures
        match res {
            Some(x) => parse_within(v@, limit as int) == Some(x as int),
            None => parse_within(v@, limit as int) is None,
        },
{
    let n: usize = v.len();
    if n == 0 {
        return None;
    }
    let negative: bool = v[0] == '-';
    let start: usize = if v[0] == '-' || v[0] == '+' {
        1
    } else {
        0
    };
    if start == n {
        return None;
    }
    let ghost body = number_body(v@);
    assert(body == v@.subrange(start as int, n as int));
    let mut acc: i128 = 0;
    let mut over: bool = false;
    let mut i: usize = start;
    assert(body.take(0) =~= Seq::<char>::empty());
    while i < n
        invariant
            n == v@.len(),
            start <= i <= n,
            start < n,
            body == v@.subrange(start as int, n as int),
            body == number_body(v@),
            0 < limit <= 0x1_0000_0000_0000_0000,
            all_digits(body.take(i - start)),
            !over ==> 0 <= acc <= limit && acc == digits_value(body.take(i - start)),
            over ==> digits_value(body.take(i - start)) > limit,
        decreases n - i,
    {
        let c: char = v[i];
        let u: u32 = c as u32;
        proof {
            assert(body[i - start] == c);
            assert(body.take(i - start + 1).drop_last() == body.take(i - start));
            assert(body.take(i - start + 1).last() == c);
        }
        if u < 0x30 || u > 0x39 {
            assert(!is_digit(body[i - start]));
            return None;
        }
        assert forall|k: int| 0 <= k < i - start + 1 implies is_digit(
            #[trigger] body.take(i - start + 1)[k],
        ) by {
            if k < i - start {
                assert(body.take(i - start)[k] == body.take(i - start + 1)[k]);
            }
        }
        if !over {
            let next: i128 = acc * 10 + (u - 0x30) as i128;
            if next > limit {
                over = true;
            } else {
                acc = next;
            }
        }
        i += 1;
    }
    assert(body.take(n - start) == body);
    if over {
        return None;
    }
    if negative {
        Some(-acc)
    } else if acc == limit {
        None
    } else {
        Some(acc)
    }
}

/// Reads an `i64`.
pub fn read_i64(v: &Vec<char>) -> (res: Option<i64>)
    ensures
        res == parse_i64(v@),
{
    match read_within(v, 0x8000_0000_0000_0000) {
        Some(x) => Some(x as i64),
        None => None,
    }
}

/// Reads an `i32`.
pub fn read_i32(v: &Vec<char>) -> (res: Option<i32>)
    ensures
        res == parse_i32(v@),
{
    match read_within(v, 0x8000_0000) {
        Some(x) => Some(x as i32),
        None => None,
    }
}

/// The character sequences of a list of lines.
pub open spec fn line_views(lines: Seq<String>) -> Seq<Seq<char>> {
    lines.map_values(|l: String| l@)
}

/// The UTF-8 bytes of each of a list of lines.
pub open spec fn line_bytes(lines: Seq<String>) -> Seq<Seq<u8>> {
    lines.map_values(|l: String| vstd::utf8::encode_utf8(l@))
}

/// `String::push` appends one character to the string. Assumed of it: the
/// string afterwards is the string before, followed by the character.
pub assume_specification[ String::push ](s: &mut String, ch: char)
    ensures
        final(s)@ == old(s)@.push(ch),
;

/// The string that the characters make.
pub fn string_of(chars: &Vec<char>) -> (s: String)
    ensures
        s@ == chars@,
{
    let mut s: String = String::new();
    let mut i: usize = 0;
    while i < chars.len()
        invariant
            i <= chars@.len(),
            s@ == chars@.take(i as int),
        decreases chars.len() - i,
    {
        s.push(chars[i]);
        assert(chars@.take(i + 1) == chars@.take(i as int).push(chars@[i as int]));
        i += 1;
    }
    assert(chars@.take(chars@.len() as int) == chars@);
    s
}

} // verus!
