//! Devices wired to one another: how many paths lead from one device to the
//! device `out`, and how many of them pass two given devices.
use crate::text::{
    chars_of, line_views, split_first, split_once, split_words, string_of, trim, trimmed, views,
    words,
};
use std::collections::VecDeque;
use vstd::hash_map::StringHashMap;
use vstd::prelude::*;
use vstd::string::StringExecFns;

verus! {

/// Why the paths have no count.
#[derive(Clone, Copy, Debug, PartialEq, Eq, Structural)]
pub enum PathError {
    /// A line without a `:` after the device's name.
    BadLine,
    /// A device on the way has no line of its own.
    UnknownDevice,
    /// A path is longer than the devices are many: the wiring runs in a
    /// circle.
    TooDeep,
    /// The count is more than the result type holds.
    Overflow,
}

/// The wiring as a mathematical value: for each device that has a line, the
/// devices that its outputs lead to.
pub open spec fn net(graph: Map<Seq<char>, Vec<String>>) -> Map<Seq<char>, Seq<Seq<char>>> {
    Map::new(
        |k: Seq<char>| graph.contains_key(k),
        |k: Seq<char>| graph[k]@.map_values(|s: String| s@),
    )
}

/// The name of the device where every path ends.
pub open spec fn out_name() -> Seq<char> {
    "out"@
}

/// Number of paths of at most `fuel` steps from device `v` to `out` that
/// count: a path counts when both marks are set at its end, and a mark is
/// set from the device named `dac` or `fft` on. A device without a line
/// has no way on.
pub open spec fn walks(
    g: Map<Seq<char>, Seq<Seq<char>>>,
    v: Seq<char>,
    dac: bool,
    fft: bool,
    fuel: nat,
) -> nat
    decreases fuel, 0nat,
{
    if v == out_name() {
        if dac && fft {
            1
        } else {
            0
        }
    } else if fuel == 0 || !g.contains_key(v) {
        0
    } else {
        walks_through(g, g[v], g[v].len(), dac, fft, (fuel - 1) as nat)
    }
}

/// Number of counting paths of at most `fuel` steps that start at one of the
/// first `k` of the devices `next`, entered with the given marks.
pub open spec fn walks_through(
    g: Map<Seq<char>, Seq<Seq<char>>>,
    next: Seq<Seq<char>>,
    k: nat,
    dac: bool,
    fft: bool,
    fuel: nat,
) -> nat
    decreases fuel, k + 1,
{
    if k == 0 {
        0
    } else {
        let w = next[k - 1];
        walks_through(g, next, (k - 1) as nat, dac, fft, fuel) + walks(
            g,
            w,
            dac || w == "dac"@,
            fft || w == "fft"@,
            fuel,
        )
    }
}

/// Every path from device `v` reaches `out` or a device without a line
/// within `fuel` steps; where `strict`, every device on the way but `out`
/// has a line.
pub open spec fn complete(
    g: Map<Seq<char>, Seq<Seq<char>>>,
    v: Seq<char>,
    strict: bool,
    fuel: nat,
) -> bool
    decreases fuel,
{
    if v == out_name() {
        true
    } else if !g.contains_key(v) {
        !strict
    } else {
        fuel > 0 && forall|t: int|
            0 <= t < g[v].len() ==> complete(g, #[trigger] g[v][t], strict, (fuel - 1) as nat)
    }
}

/// With more steps allowed, what was complete stays complete and counts the
/// same.
pub proof fn lemma_complete_more(
    g: Map<Seq<char>, Seq<Seq<char>>>,
    v: Seq<char>,
    strict: bool,
    dac: bool,
    fft: bool,
    fuel: nat,
    more: nat,
)
    requires
        complete(g, v, strict, fuel),
        fuel <= more,
    ensures
        complete(g, v, strict, more),
        walks(g, v, dac, fft, fuel) == walks(g, v, dac, fft, more),
    decreases fuel, 0nat,
{
    if v != out_name() && g.contains_key(v) {
        assert forall|t: int| 0 <= t < g[v].len() implies complete(
            g,
            #[trigger] g[v][t],
            strict,
            (more - 1) as nat,
        ) by {
            lemma_complete_more(g, g[v][t], strict, dac, fft, (fuel - 1) as nat, (more - 1) as nat);
        }
        lemma_through_more(
            g,
            g[v],
            g[v].len(),
            strict,
            dac,
            fft,
            (fuel - 1) as nat,
            (more - 1) as nat,
        );
    }
}

/// With more steps allowed, the paths through complete devices count the
/// same.
pub proof fn lemma_through_more(
    g: Map<Seq<char>, Seq<Seq<char>>>,
    next: Seq<Seq<char>>,
    k: nat,
    strict: bool,
    dac: bool,
    fft: bool,
    fuel: nat,
    more: nat,
)
    requires
        k <= next.len(),
        forall|t: int| 0 <= t < k ==> complete(g, #[trigger] next[t], strict, fuel),
        fuel <= more,
    ensures
        walks_through(g, next, k, dac, fft, fuel) == walks_through(g, next, k, dac, fft, more),
    decreases fuel, k + 1,
{
    if k > 0 {
        let w = next[k - 1];
        lemma_through_more(g, next, (k - 1) as nat, strict, dac, fft, fuel, more);
        lemma_complete_more(g, w, strict, dac || w == "dac"@, fft || w == "fft"@, fuel, more);
    }
}

/// The paths through more of the devices are no fewer.
pub proof fn lemma_through_grows(
    g: Map<Seq<char>, Seq<Seq<char>>>,
    next: Seq<Seq<char>>,
    k: nat,
    n: nat,
    dac: bool,
    fft: bool,
    fuel: nat,
)
    requires
        k <= n,
    ensures
        walks_through(g, next, k, dac, fft, fuel) <= walks_through(g, next, n, dac, fft, fuel),
    decreases n - k,
{
    if k < n {
        lemma_through_grows(g, next, k, (n - 1) as nat, dac, fft, fuel);
    }
}

/// The count `c` is the number of counting paths from `v`, all of which
/// end.
pub open spec fn settled(
    g: Map<Seq<char>, Seq<Seq<char>>>,
    v: Seq<char>,
    strict: bool,
    dac: bool,
    fft: bool,
    c: nat,
) -> bool {
    exists|fuel: nat| #[trigger] complete(g, v, strict, fuel) && walks(g, v, dac, fft, fuel) == c
}

/// Within some number of steps there are more counting paths from `v` than
/// a `u64` counts.
pub open spec fn overflows(g: Map<Seq<char>, Seq<Seq<char>>>, v: Seq<char>, dac: bool, fft: bool) -> bool {
    exists|fuel: nat| #[trigger] walks(g, v, dac, fft, fuel) > u64::MAX
}

/// The counts found so far, by device and by the marks with which the
/// device was entered.
pub struct FlagCache {
    pub neither: StringHashMap<u64>,
    pub dac: StringHashMap<u64>,
    pub fft: StringHashMap<u64>,
    pub both: StringHashMap<u64>,
}

impl FlagCache {
    /// The count noted for a device and marks, if there is one.
    pub open spec fn lookup(&self, name: Seq<char>, dac: bool, fft: bool) -> Option<u64> {
        let m = if dac && fft {
            self.both@
        } else if dac {
            self.dac@
        } else if fft {
            self.fft@
        } else {
            self.neither@
        };
        if m.contains_key(name) {
            Some(m[name])
        } else {
            None
        }
    }

    /// A cache without a count.
    pub fn new() -> (cache: FlagCache)
        ensures
            forall|name: Seq<char>, dac: bool, fft: bool| (#[trigger] cache.lookup(name, dac, fft)) is None,
    {
        FlagCache {
            neither: StringHashMap::new(),
            dac: StringHashMap::new(),
            fft: StringHashMap::new(),
            both: StringHashMap::new(),
        }
    }

    /// The count noted for a device and marks.
    pub fn get(&self, name: &str, dac: bool, fft: bool) -> (found: Option<u64>)
        ensures
            found == self.lookup(name@, dac, fft),
    {
        let hit: Option<&u64> = if dac && fft {
            self.both.get(name)
        } else if dac {
            self.dac.get(name)
        } else if fft {
            self.fft.get(name)
        } else {
            self.neither.get(name)
        };
        match hit {
            Some(v) => Some(*v),
            None => None,
        }
    }

    /// Notes a count for a device and marks.
    pub fn insert(&mut self, name: String, dac: bool, fft: bool, value: u64)
        ensures
            forall|n: Seq<char>, d: bool, f: bool|
                #[trigger] final(self).lookup(n, d, f) == if n == name@ && d == dac && f == fft {
                    Some(value)
                } else {
                    old(self).lookup(n, d, f)
                },
    {
        if dac && fft {
            self.both.insert(name, value);
        } else if dac {
            self.dac.insert(name, value);
        } else if fft {
            self.fft.insert(name, value);
        } else {
            self.neither.insert(name, value);
        }
    }
}

/// Every count in the cache is right.
pub open spec fn cache_ok(cache: FlagCache, g: Map<Seq<char>, Seq<Seq<char>>>, strict: bool) -> bool {
    forall|name: Seq<char>, dac: bool, fft: bool|
        match #[trigger] cache.lookup(name, dac, fft) {
            Some(c) => settled(g, name, strict, dac, fft, c as nat),
            None => true,
        }
}

/// What a count of the paths from `v` promises of its result: a count is
/// the number of counting paths, all of which end; an overflow says that
/// there are too many; any other failure says that within `budget` steps
/// not every path ends.
pub open spec fn count_result(
    g: Map<Seq<char>, Seq<Seq<char>>>,
    v: Seq<char>,
    strict: bool,
    dac: bool,
    fft: bool,
    budget: nat,
    res: Result<u64, PathError>,
) -> bool {
    match res {
        Ok(c) => settled(g, v, strict, dac, fft, c as nat),
        Err(PathError::Overflow) => overflows(g, v, dac, fft),
        Err(_) => !complete(g, v, strict, budget),
    }
}

/// The marks with which the device `w` is entered from a device entered
/// with the marks `dac` and `fft`.
pub open spec fn marks_at(w: Seq<char>, dac: bool, fft: bool) -> (bool, bool) {
    (dac || w == "dac"@, fft || w == "fft"@)
}

/// The paths from a device with a line are at least those through the first
/// `k` of the devices that it leads to.
pub proof fn lemma_walks_at_least(
    g: Map<Seq<char>, Seq<Seq<char>>>,
    v: Seq<char>,
    k: nat,
    dac: bool,
    fft: bool,
    fuel: nat,
)
    requires
        v != out_name(),
        g.contains_key(v),
        k <= g[v].len(),
    ensures
        walks(g, v, dac, fft, fuel + 1) >= walks_through(g, g[v], k, dac, fft, fuel),
{
    lemma_through_grows(g, g[v], k, g[v].len(), dac, fft, fuel);
}

/// The paths from a device with a line are at least those from one of the
/// devices that it leads to.
pub proof fn lemma_walks_at_least_one(
    g: Map<Seq<char>, Seq<Seq<char>>>,
    v: Seq<char>,
    k: int,
    dac: bool,
    fft: bool,
    fuel: nat,
)
    requires
        v != out_name(),
        g.contains_key(v),
        0 <= k < g[v].len(),
    ensures
        walks(g, v, dac, fft, fuel + 1) >= walks(
            g,
            g[v][k],
            marks_at(g[v][k], dac, fft).0,
            marks_at(g[v][k], dac, fft).1,
            fuel,
        ),
{
    lemma_walks_at_least(g, v, (k + 1) as nat, dac, fft, fuel);
}

/// One more of the devices that `v` leads to is counted: with enough steps
/// for all of them so far, they are complete, and their paths are those
/// counted before and those of the new one.
pub proof fn lemma_count_next(
    g: Map<Seq<char>, Seq<Seq<char>>>,
    next: Seq<Seq<char>>,
    k: nat,
    strict: bool,
    dac: bool,
    fft: bool,
    fuel: nat,
    f: nat,
) -> (both: nat)
    requires
        k < next.len(),
        forall|t: int| 0 <= t < k ==> complete(g, #[trigger] next[t], strict, fuel),
        complete(g, next[k as int], strict, f),
    ensures
        both >= fuel,
        forall|t: int| 0 <= t < k + 1 ==> complete(g, #[trigger] next[t], strict, both),
        walks_through(g, next, k + 1, dac, fft, both) == walks_through(g, next, k, dac, fft, fuel)
            + walks(
            g,
            next[k as int],
            marks_at(next[k as int], dac, fft).0,
            marks_at(next[k as int], dac, fft).1,
            f,
        ),
{
    let w = next[k as int];
    let both: nat = if f >= fuel {
        f
    } else {
        fuel
    };
    lemma_complete_more(g, w, strict, marks_at(w, dac, fft).0, marks_at(w, dac, fft).1, f, both);
    assert forall|t: int| 0 <= t < k + 1 implies complete(g, #[trigger] next[t], strict, both) by {
        if t < k {
            lemma_complete_more(g, next[t], strict, dac, fft, fuel, both);
        }
    }
    lemma_through_more(g, next, k, strict, dac, fft, fuel, both);
    both
}

/// Counts the counting paths from `current` to `out`, at most `budget` steps
/// deep, noting every count found on the way.
fn count_paths(
    current: &String,
    has_dac: bool,
    has_fft: bool,
    strict: bool,
    graph: &StringHashMap<Vec<String>>,
    cache: &mut FlagCache,
    budget: usize,
) -> (res: Result<u64, PathError>)
    requires
        cache_ok(*old(cache), net(graph@), strict),
    ensures
        cache_ok(*final(cache), net(graph@), strict),
        count_result(net(graph@), current@, strict, has_dac, has_fft, budget as nat, res),
    decreases budget,
{
    let ghost g = net(graph@);
    let ghost v = current@;
    let out: String = String::from_str("out");
    if *current == out {
        let c: u64 = if has_dac && has_fft {
            1
        } else {
            0
        };
        assert(complete(g, v, strict, 0));
        return Ok(c);
    }
    match cache.get(current.as_str(), has_dac, has_fft) {
        Some(cached) => {
            return Ok(cached);
        },
        None => {},
    }
    let to_visit: &Vec<String> = match graph.get(current.as_str()) {
        Some(list) => list,
        None => {
            if strict {
                return Err(PathError::UnknownDevice);
            }
            assert(complete(g, v, strict, 0));
            cache.insert(current.clone(), has_dac, has_fft, 0);
            return Ok(0);
        },
    };
    if budget == 0 {
        return Err(PathError::TooDeep);
    }
    let ghost next = g[v];
    assert(next =~= to_visit@.map_values(|s: String| s@));
    let dac_name: String = String::from_str("dac");
    let fft_name: String = String::from_str("fft");
    let mut tot: u64 = 0;
    let ghost mut fuel: nat = 0;
    let mut k: usize = 0;
    while k < to_visit.len()
        invariant
            g == net(graph@),
            v == current@,
            v != out_name(),
            g.contains_key(v),
            next == g[v],
            next.len() == to_visit@.len(),
            forall|t: int| 0 <= t < next.len() ==> #[trigger] next[t] == to_visit@[t]@,
            dac_name@ == "dac"@,
            fft_name@ == "fft"@,
            budget > 0,
            k <= to_visit@.len(),
            cache_ok(*cache, g, strict),
            forall|t: int| 0 <= t < k ==> complete(g, #[trigger] next[t], strict, fuel),
            tot == walks_through(g, next, k as nat, has_dac, has_fft, fuel),
        ensures
            k == to_visit@.len(),
            cache_ok(*cache, g, strict),
            forall|t: int| 0 <= t < next.len() ==> complete(g, #[trigger] next[t], strict, fuel),
            tot == walks_through(g, next, next.len(), has_dac, has_fft, fuel),
        decreases to_visit.len() - k,
    {
        let node: &String = &to_visit[k];
        let new_has_dac: bool = has_dac || *node == dac_name;
        let new_has_fft: bool = has_fft || *node == fft_name;
        let ghost w = next[k as int];
        assert(w == node@);
        assert(marks_at(w, has_dac, has_fft) == (new_has_dac, new_has_fft));
        let step: Result<u64, PathError> = count_paths(
            node,
            new_has_dac,
            new_has_fft,
            strict,
            graph,
            cache,
            budget - 1,
        );
        let found: u64 = match step {
            Ok(c) => c,
            Err(PathError::Overflow) => {
                proof {
                    let f = choose|f: nat| #[trigger]
                        walks(g, w, new_has_dac, new_has_fft, f) > u64::MAX;
                    lemma_walks_at_least_one(g, v, k as int, has_dac, has_fft, f);
                    assert(walks(g, v, has_dac, has_fft, f + 1) > u64::MAX);
                }
                return Err(PathError::Overflow);
            },
            Err(e) => {
                assert(!complete(g, next[k as int], strict, (budget - 1) as nat));
                return Err(e);
            },
        };
        proof {
            let f = choose|f: nat| #[trigger]
                complete(g, w, strict, f) && walks(g, w, new_has_dac, new_has_fft, f) == found;
            fuel = lemma_count_next(g, next, k as nat, strict, has_dac, has_fft, fuel, f);
        }
        tot = match tot.checked_add(found) {
            Some(s) => s,
            None => {
                proof {
                    lemma_walks_at_least(g, v, (k + 1) as nat, has_dac, has_fft, fuel);
                    assert(walks(g, v, has_dac, has_fft, fuel + 1) > u64::MAX);
                }
                return Err(PathError::Overflow);
            },
        };
        k += 1;
    }
    proof {
        assert(complete(g, v, strict, fuel + 1));
        assert(walks(g, v, has_dac, has_fft, fuel + 1) == tot);
    }
    cache.insert(current.clone(), has_dac, has_fft, tot);
    Ok(tot)
}

// ---------------------------------------------------------------------------
// The wiring from text
// ---------------------------------------------------------------------------

/// What a line says: the device named before the first `:`, and the devices
/// named after it, with white space between them.
pub open spec fn parse_line(s: Seq<char>) -> Option<(Seq<char>, Seq<Seq<char>>)> {
    match split_once(s, ':') {
        None => None,
        Some((source, dest)) => Some((source, words(trim(dest), true))),
    }
}

/// The views of a list of strings.
pub open spec fn names(list: Seq<String>) -> Seq<Seq<char>> {
    list.map_values(|s: String| s@)
}

/// Reads one line of the wiring.
pub fn parse(line: &str) -> (res: Option<(String, Vec<String>)>)
    ensures
        match res {
            Some((source, dests)) => parse_line(line@) == Some((source@, names(dests@))),
            None => parse_line(line@) is None,
        },
{
    let chars: Vec<char> = chars_of(line);
    let (source, dest) = match split_first(&chars, ':') {
        Some(sides) => sides,
        None => {
            return None;
        },
    };
    let pieces: Vec<Vec<char>> = split_words(&trimmed(&dest), true);
    let mut dests: Vec<String> = Vec::new();
    let mut k: usize = 0;
    while k < pieces.len()
        invariant
            k <= pieces@.len(),
            dests@.len() == k,
            forall|t: int| 0 <= t < k ==> (#[trigger] dests@[t])@ == pieces@[t]@,
        decreases pieces.len() - k,
    {
        dests.push(string_of(&pieces[k]));
        k += 1;
    }
    assert(names(dests@) =~= views(pieces@));
    Some((string_of(&source), dests))
}

/// The wiring that the lines describe: a later line for a device replaces
/// an earlier one. `None` where a line has no `:`.
pub open spec fn wiring(lines: Seq<Seq<char>>) -> Option<Map<Seq<char>, Seq<Seq<char>>>>
    decreases lines.len(),
{
    if lines.len() == 0 {
        Some(Map::empty())
    } else {
        match wiring(lines.drop_last()) {
            None => None,
            Some(g) => match parse_line(lines.last()) {
                None => None,
                Some((source, dests)) => Some(g.insert(source, dests)),
            },
        }
    }
}

/// Once a line fails, so does every longer list of lines.
pub proof fn lemma_wiring_stops(lines: Seq<Seq<char>>, k: int)
    requires
        0 <= k <= lines.len(),
        wiring(lines.take(k)) is None,
    ensures
        wiring(lines) is None,
    decreases lines.len() - k,
{
    if k < lines.len() {
        assert(lines.take(k + 1).drop_last() == lines.take(k));
        lemma_wiring_stops(lines, k + 1);
    } else {
        assert(lines.take(k) == lines);
    }
}

/// Reads the wiring.
pub fn read_wiring(lines: &Vec<String>) -> (res: Option<StringHashMap<Vec<String>>>)
    ensures
        match res {
            Some(graph) => wiring(line_views(lines@)) == Some(net(graph@)),
            None => wiring(line_views(lines@)) is None,
        },
{
    let mut graph: StringHashMap<Vec<String>> = StringHashMap::new();
    let ghost all = line_views(lines@);
    let mut i: usize = 0;
    assert(all.take(0) =~= Seq::<Seq<char>>::empty());
    assert(net(graph@) =~= Map::<Seq<char>, Seq<Seq<char>>>::empty());
    while i < lines.len()
        invariant
            i <= lines.len(),
            all == line_views(lines@),
            wiring(all.take(i as int)) == Some(net(graph@)),
        decreases lines.len() - i,
    {
        proof {
            assert(all.take(i + 1).drop_last() == all.take(i as int));
            assert(all.take(i + 1).last() == lines@[i as int]@);
        }
        match parse(lines[i].as_str()) {
            Some((source, dests)) => {
                let ghost before = graph@;
                let ghost key = source@;
                let ghost value = names(dests@);
                graph.insert(source, dests);
                assert(net(graph@) =~= net(before).insert(key, value));
            },
            None => {
                proof {
                    lemma_wiring_stops(all, i + 1);
                }
                return None;
            },
        }
        i += 1;
    }
    assert(all.take(lines.len() as int) == all);
    Some(graph)
}

// ---------------------------------------------------------------------------
// Counting paths
// ---------------------------------------------------------------------------

/// Number of steps that a path may take: one more than there are devices
/// with a line.
pub open spec fn depth_limit(graph: Map<Seq<char>, Vec<String>>) -> nat {
    step_limit(net(graph))
}

/// Number of steps that a path may take in the wiring `g`: one more than
/// there are devices with a line, as far as a `usize` counts.
pub open spec fn step_limit(g: Map<Seq<char>, Seq<Seq<char>>>) -> nat {
    if g.dom().len() < usize::MAX {
        g.dom().len() + 1
    } else {
        usize::MAX as nat
    }
}

/// The wiring as a mathematical value has the devices of the wiring as
/// read.
pub proof fn lemma_net_devices(graph: Map<Seq<char>, Vec<String>>)
    ensures
        net(graph).dom() == graph.dom(),
{
    assert(net(graph).dom() =~= graph.dom());
}

/// Counts the paths from `current` to `out`; every device on the way must
/// have a line.
pub fn dfs(current: &String, graph: &StringHashMap<Vec<String>>, cache: &mut FlagCache) -> (res:
    Result<u64, PathError>)
    requires
        cache_ok(*old(cache), net(graph@), true),
    ensures
        cache_ok(*final(cache), net(graph@), true),
        count_result(net(graph@), current@, true, true, true, depth_limit(graph@), res),
{
    broadcast use vstd::hash_map::axiom_string_hash_map_spec_len;

    proof {
        lemma_net_devices(graph@);
    }
    let budget: usize = graph.len().saturating_add(1);
    count_paths(current, true, true, true, graph, cache, budget)
}

/// Counts the paths from `current` to `out` that pass both `dac` and `fft`,
/// the marks telling which of the two lie behind; a device without a line
/// has no way on.
pub fn dfs_part2(
    current: &str,
    has_dac: bool,
    has_fft: bool,
    graph: &StringHashMap<Vec<String>>,
    cache: &mut FlagCache,
) -> (res: Result<u64, PathError>)
    requires
        cache_ok(*old(cache), net(graph@), false),
    ensures
        cache_ok(*final(cache), net(graph@), false),
        count_result(net(graph@), current@, false, has_dac, has_fft, depth_limit(graph@), res),
{
    broadcast use vstd::hash_map::axiom_string_hash_map_spec_len;

    proof {
        lemma_net_devices(graph@);
    }
    let budget: usize = graph.len().saturating_add(1);
    let start: String = String::from_str(current);
    count_paths(&start, has_dac, has_fft, false, graph, cache, budget)
}

/// Within some number of steps there are more counting paths from `v` than
/// an `i64` counts.
pub open spec fn too_many(g: Map<Seq<char>, Seq<Seq<char>>>, v: Seq<char>, marked: bool) -> bool {
    exists|fuel: nat| #[trigger] walks(g, v, marked, marked, fuel) > i64::MAX
}

/// However many steps are allowed, not every path from `v` ends within
/// them: the wiring runs in a circle, or, where `strict`, a device on the
/// way has no line.
pub open spec fn never_ends(g: Map<Seq<char>, Seq<Seq<char>>>, v: Seq<char>, strict: bool) -> bool {
    forall|fuel: nat| !#[trigger] complete(g, v, strict, fuel)
}

/// What the two solvers promise of their result for the wiring `g`: a
/// count is the number of counting paths from `start`, all of which end; an
/// overflow says that there are too many for an `i64`; any other failure
/// says that the paths do not all end.
pub open spec fn count_in_i64(
    g: Map<Seq<char>, Seq<Seq<char>>>,
    start: Seq<char>,
    strict: bool,
    marked: bool,
    res: Result<i64, PathError>,
) -> bool {
    &&& res != Err::<i64, PathError>(PathError::BadLine)
    &&& res is Ok ==> 0 <= res->Ok_0 && settled(g, start, strict, marked, marked, res->Ok_0 as nat)
    &&& res == Err::<i64, PathError>(PathError::Overflow) ==> too_many(g, start, marked)
    &&& (res == Err::<i64, PathError>(PathError::UnknownDevice) || res == Err::<i64, PathError>(
        PathError::TooDeep,
    )) ==> never_ends(g, start, strict)
}

/// What the two solvers promise of their result for the lines: where a line
/// has no `:`, the failure `BadLine`; else what `count_in_i64` says for the
/// wiring that the lines describe.
pub open spec fn solve_result(
    lines: Seq<Seq<char>>,
    start: Seq<char>,
    strict: bool,
    marked: bool,
    res: Result<i64, PathError>,
) -> bool {
    match wiring(lines) {
        None => res == Err::<i64, PathError>(PathError::BadLine),
        Some(g) => count_in_i64(g, start, strict, marked, res),
    }
}

/// Turns the count of a search into the result of a solver.
fn finish(
    found: Result<u64, PathError>,
    Ghost(g): Ghost<Map<Seq<char>, Seq<Seq<char>>>>,
    Ghost(start): Ghost<Seq<char>>,
    Ghost(strict): Ghost<bool>,
    Ghost(marked): Ghost<bool>,
    Ghost(budget): Ghost<nat>,
) -> (res: Result<i64, PathError>)
    requires
        count_result(g, start, strict, marked, marked, budget, found),
        budget == step_limit(g),
        g.dom().finite(),
        g.dom().len() <= usize::MAX,
    ensures
        count_in_i64(g, start, strict, marked, res),
{
    proof {
        if !complete(g, start, strict, budget) {
            assert forall|fuel: nat| !#[trigger] complete(g, start, strict, fuel) by {
                if complete(g, start, strict, fuel) {
                    lemma_step_limit_suffices(g, start, strict, fuel);
                }
            }
        }
    }
    match found {
        Ok(c) => {
            if c > i64::MAX as u64 {
                proof {
                    let f = choose|f: nat| #[trigger]
                        complete(g, start, strict, f) && walks(g, start, marked, marked, f) == c;
                    assert(walks(g, start, marked, marked, f) > i64::MAX);
                }
                Err(PathError::Overflow)
            } else {
                Ok(c as i64)
            }
        },
        Err(PathError::Overflow) => {
            proof {
                let f = choose|f: nat| #[trigger] walks(g, start, marked, marked, f) > u64::MAX;
                assert(walks(g, start, marked, marked, f) > i64::MAX);
            }
            Err(PathError::Overflow)
        },
        Err(PathError::UnknownDevice) => {
            assert(never_ends(g, start, strict));
            Err(PathError::UnknownDevice)
        },
        Err(_) => {
            assert(never_ends(g, start, strict));
            Err(PathError::TooDeep)
        },
    }
}

/// Number of paths from the device `you` to `out`.
pub fn part1(lines: &Vec<String>) -> (res: Result<i64, PathError>)
    ensures
        solve_result(line_views(lines@), "you"@, true, true, res),
{
    let graph: StringHashMap<Vec<String>> = match read_wiring(lines) {
        Some(g) => g,
        None => {
            return Err(PathError::BadLine);
        },
    };
    let mut cache: FlagCache = FlagCache::new();
    let start: String = String::from_str("you");
    let found: Result<u64, PathError> = dfs(&start, &graph, &mut cache);
    proof {
        broadcast use vstd::hash_map::axiom_string_hash_map_spec_len;

        lemma_wiring_finite(line_views(lines@));
        lemma_net_devices(graph@);
        assert(graph.len() == graph@.dom().len());
    }
    finish(
        found,
        Ghost(net(graph@)),
        Ghost("you"@),
        Ghost(true),
        Ghost(true),
        Ghost(depth_limit(graph@)),
    )
}

/// Number of paths from the device `svr` to `out` that pass both the device
/// `dac` and the device `fft`.
pub fn solve(lines: &Vec<String>) -> (res: Result<i64, PathError>)
    ensures
        solve_result(line_views(lines@), "svr"@, false, false, res),
{
    let graph: StringHashMap<Vec<String>> = match read_wiring(lines) {
        Some(g) => g,
        None => {
            return Err(PathError::BadLine);
        },
    };
    let mut cache: FlagCache = FlagCache::new();
    let found: Result<u64, PathError> = dfs_part2("svr", false, false, &graph, &mut cache);
    proof {
        broadcast use vstd::hash_map::axiom_string_hash_map_spec_len;

        lemma_wiring_finite(line_views(lines@));
        lemma_net_devices(graph@);
        assert(graph.len() == graph@.dom().len());
    }
    finish(
        found,
        Ghost(net(graph@)),
        Ghost("svr"@),
        Ghost(false),
        Ghost(false),
        Ghost(depth_limit(graph@)),
    )
}

// ---------------------------------------------------------------------------
// Counting level by level
// ---------------------------------------------------------------------------

/// Number of paths of at most `fuel` steps to `out` that start at one of the
/// first `k` of the devices.
pub open spec fn walks_from(g: Map<Seq<char>, Seq<Seq<char>>>, front: Seq<Seq<char>>, k: nat, fuel: nat) -> nat {
    walks_through(g, front, k, true, true, fuel)
}

/// Every path from one of the first `k` devices ends within `fuel` steps,
/// and every device on the way but `out` has a line.
pub open spec fn all_complete(g: Map<Seq<char>, Seq<Seq<char>>>, front: Seq<Seq<char>>, k: int, fuel: nat) -> bool {
    forall|t: int| 0 <= t < k ==> complete(g, #[trigger] front[t], true, fuel)
}

/// The paths from the first `k` devices do not depend on what follows them.
pub proof fn lemma_walks_prefix(
    g: Map<Seq<char>, Seq<Seq<char>>>,
    a: Seq<Seq<char>>,
    b: Seq<Seq<char>>,
    k: nat,
    fuel: nat,
)
    requires
        k <= a.len(),
        k <= b.len(),
        forall|t: int| 0 <= t < k ==> a[t] == b[t],
    ensures
        walks_from(g, a, k, fuel) == walks_from(g, b, k, fuel),
    decreases k,
{
    if k > 0 {
        lemma_walks_prefix(g, a, b, (k - 1) as nat, fuel);
    }
}

/// With both marks set, the marks stay set: the paths from a device with a
/// line are those from the devices it leads to.
pub proof fn lemma_walks_step(g: Map<Seq<char>, Seq<Seq<char>>>, v: Seq<char>, fuel: nat)
    requires
        v != out_name(),
        g.contains_key(v),
    ensures
        walks(g, v, true, true, fuel + 1) == walks_from(g, g[v], g[v].len(), fuel),
{
}

/// Counts the paths from the device `you` to `out` level by level: first
/// the paths of one step, then those of two, and so on; every device on
/// the way must have a line.
pub fn bfs(graph: &StringHashMap<Vec<String>>) -> (res: Result<u64, PathError>)
    ensures
        count_result(net(graph@), "you"@, true, true, true, depth_limit(graph@), res),
{
    broadcast use vstd::hash_map::axiom_string_hash_map_spec_len;

    let ghost g = net(graph@);
    let ghost you = "you"@;
    proof {
        lemma_net_devices(graph@);
    }
    let budget: usize = graph.len().saturating_add(1);
    let out: String = String::from_str("out");
    let mut q: VecDeque<String> = VecDeque::new();
    q.push_back(String::from_str("you"));
    let mut tot: u64 = 0;
    let mut depth: usize = 0;
    proof {
        reveal_strlit("you");
        reveal_strlit("out");
        assert(you != out_name()) by {
            assert(you[0] == 'y');
            assert(out_name()[0] == 'o');
        }
        assert(names(q@) =~= seq![you]);
        assert forall|f: nat| walks(g, you, true, true, f) == #[trigger] walks_from(
            g,
            names(q@),
            1,
            f,
        ) by {
            assert(walks_from(g, names(q@), 0, f) == 0);
        }
        assert forall|f: nat| #[trigger] all_complete(g, names(q@), 1, f) <==> complete(
            g,
            you,
            true,
            f,
        ) by {
            assert(names(q@)[0] == you);
        }
    }
    while depth < budget
        invariant
            g == net(graph@),
            you == "you"@,
            out@ == out_name(),
            budget == depth_limit(graph@),
            depth <= budget,
            forall|t: int| 0 <= t < q@.len() ==> #[trigger] names(q@)[t] != out_name(),
            forall|f: nat|
                walks(g, you, true, true, (depth + f) as nat) == tot + #[trigger] walks_from(
                    g,
                    names(q@),
                    q@.len(),
                    f,
                ),
            forall|f: nat|
                #[trigger] all_complete(g, names(q@), q@.len() as int, f) <==> complete(
                    g,
                    you,
                    true,
                    (depth + f) as nat,
                ),
        decreases budget - depth,
    {
        if q.len() == 0 {
            proof {
                assert(all_complete(g, names(q@), 0, 0));
                assert(walks_from(g, names(q@), 0, 0) == 0);
                assert(complete(g, you, true, depth as nat));
                assert(walks(g, you, true, true, depth as nat) == tot);
            }
            return Ok(tot);
        }
        let ghost front = names(q@);
        let ghost start = tot as nat;
        let ghost mut nxt: Seq<Seq<char>> = Seq::empty();
        let level: usize = q.len();
        let mut i: usize = 0;
        proof {
            assert forall|f: nat| tot + #[trigger] walks_from(g, nxt, 0, f) == start
                + walks_from(g, front, 0, (f + 1) as nat) by {}
        }
        while i < level
            invariant
                g == net(graph@),
                you == "you"@,
                out@ == out_name(),
                budget == depth_limit(graph@),
                depth < budget,
                level == front.len(),
                names(q@) == front.skip(i as int) + nxt,
                i <= level,
                forall|t: int| 0 <= t < front.len() ==> #[trigger] front[t] != out_name(),
                forall|t: int| 0 <= t < nxt.len() ==> #[trigger] nxt[t] != out_name(),
                forall|f: nat|
                    walks(g, you, true, true, (depth + f) as nat) == start + #[trigger] walks_from(
                        g,
                        front,
                        front.len(),
                        f,
                    ),
                forall|f: nat|
                    #[trigger] all_complete(g, front, front.len() as int, f) <==> complete(
                        g,
                        you,
                        true,
                        (depth + f) as nat,
                    ),
                forall|f: nat|
                    tot + #[trigger] walks_from(g, nxt, nxt.len(), f) == start
                        + walks_from(g, front, i as nat, (f + 1) as nat),
                forall|f: nat|
                    #[trigger] all_complete(g, nxt, nxt.len() as int, f) <==> all_complete(
                        g,
                        front,
                        i as int,
                        (f + 1) as nat,
                    ),
            decreases level - i,
        {
            let ghost waiting = q@;
            assert(names(waiting).len() == waiting.len() && front.skip(i as int).len() >= 1);
            let source: String = match q.pop_front() {
                Some(s) => s,
                None => {
                    assert(false);
                    return Err(PathError::TooDeep);
                },
            };
            let ghost u = front[i as int];
            proof {
                assert(names(waiting)[0] == front.skip(i as int)[0]);
                assert(names(q@) =~= names(waiting).subrange(1, waiting.len() as int));
                assert(names(waiting).subrange(1, waiting.len() as int) =~= front.skip(i + 1)
                    + nxt) by {
                    let whole = front.skip(i as int) + nxt;
                    let rest = front.skip(i + 1) + nxt;
                    assert forall|k: int| 0 <= k < rest.len() implies whole[k + 1] == rest[k] by {
                        if k < front.skip(i + 1).len() {
                            assert(whole[k + 1] == front.skip(i as int)[k + 1]);
                        } else {
                            assert(whole[k + 1] == nxt[k + 1 - front.skip(i as int).len()]);
                        }
                    }
                }
            }
            assert(u == source@);
            let to_visit: &Vec<String> = match graph.get(source.as_str()) {
                Some(list) => list,
                None => {
                    proof {
                        let f = (budget - depth) as nat;
                        assert(!complete(g, u, true, f));
                        assert(!all_complete(g, front, front.len() as int, f));
                    }
                    return Err(PathError::UnknownDevice);
                },
            };
            let ghost succ = g[u];
            assert(succ =~= names(to_visit@));
            let ghost level_tot = tot as nat;
            let ghost level_next = nxt;
            let mut j: usize = 0;
            proof {
                assert forall|f: nat| tot + #[trigger] walks_from(
                    g,
                    nxt,
                    nxt.len(),
                    f,
                ) == start + walks_from(g, front, i as nat, (f + 1) as nat) + walks_from(g, succ, 0, f) by {}
            }
            while j < to_visit.len()
                invariant
                    g == net(graph@),
                    out@ == out_name(),
                    u != out_name(),
                    g.contains_key(u),
                    succ == g[u],
                    succ == names(to_visit@),
                    j <= to_visit@.len(),
                    i < front.len(),
                    u == front[i as int],
                    names(q@) == front.skip(i + 1) + nxt,
                    you == "you"@,
                    forall|f: nat|
                        walks(g, you, true, true, (depth + f) as nat) == start
                            + #[trigger] walks_from(g, front, front.len(), f),
                    forall|t: int| 0 <= t < nxt.len() ==> #[trigger] nxt[t] != out_name(),
                    forall|f: nat|
                        tot + #[trigger] walks_from(g, nxt, nxt.len(), f) == start
                            + walks_from(g, front, i as nat, (f + 1) as nat) + walks_from(
                            g,
                            succ,
                            j as nat,
                            f,
                        ),
                    forall|f: nat|
                        #[trigger] all_complete(g, nxt, nxt.len() as int, f) <==> (
                        all_complete(g, front, i as int, (f + 1) as nat) && all_complete(
                            g,
                            succ,
                            j as int,
                            f,
                        )),
                decreases to_visit.len() - j,
            {
                let v: &String = &to_visit[j];
                let ghost w = succ[j as int];
                assert(w == v@);
                let ghost before = nxt;
                let ghost before_tot = tot as nat;
                if *v != out {
                    let ghost queued = q@;
                    q.push_back(v.clone());
                    proof {
                        nxt = nxt.push(w);
                        assert(names(q@) =~= names(queued).push(w));
                        assert(names(q@) =~= front.skip(i + 1) + nxt);
                        let after = nxt;
                        assert(after =~= before.push(w));
                        assert forall|f: nat| tot + #[trigger] walks_from(
                            g,
                            after,
                            after.len(),
                            f,
                        ) == start + walks_from(g, front, i as nat, (f + 1) as nat) + walks_from(
                            g,
                            succ,
                            (j + 1) as nat,
                            f,
                        ) by {
                            lemma_walks_prefix(g, after, before, before.len(), f);
                            assert(tot + walks_from(g, before, before.len(), f) == start
                                + walks_from(g, front, i as nat, (f + 1) as nat) + walks_from(
                                g,
                                succ,
                                j as nat,
                                f,
                            ));
                        }
                        assert forall|f: nat| #[trigger]
                            all_complete(g, after, after.len() as int, f) <==> (all_complete(
                            g,
                            front,
                            i as int,
                            (f + 1) as nat,
                        ) && all_complete(g, succ, j + 1, f)) by {
                            assert(all_complete(g, before, before.len() as int, f) <==> (
                            all_complete(g, front, i as int, (f + 1) as nat) && all_complete(
                                g,
                                succ,
                                j as int,
                                f,
                            )));
                            if all_complete(g, after, after.len() as int, f) {
                                assert forall|t: int| 0 <= t < before.len() implies complete(
                                    g,
                                    #[trigger] before[t],
                                    true,
                                    f,
                                ) by {
                                    assert(after[t] == before[t]);
                                }
                                assert(after[before.len() as int] == w);
                            }
                            if all_complete(g, before, before.len() as int, f) && complete(
                                g,
                                w,
                                true,
                                f,
                            ) {
                                assert forall|t: int| 0 <= t < after.len() implies complete(
                                    g,
                                    #[trigger] after[t],
                                    true,
                                    f,
                                ) by {
                                    if t < before.len() {
                                        assert(after[t] == before[t]);
                                    }
                                }
                            }
                        }
                    }
                } else {
                    if tot == u64::MAX {
                        proof {
                            let f = 0nat;
                            assert(before_tot + walks_from(g, before, before.len(), f) == start
                                + walks_from(g, front, i as nat, (f + 1) as nat) + walks_from(
                                g,
                                succ,
                                j as nat,
                                f,
                            ));
                            assert(walks(g, w, true, true, f) == 1);
                            assert(walks_from(g, succ, (j + 1) as nat, f) == walks_from(
                                g,
                                succ,
                                j as nat,
                                f,
                            ) + walks(g, w, true, true, f));
                            lemma_through_grows(g, succ, (j + 1) as nat, succ.len(), true, true, f);
                            lemma_walks_step(g, u, f);
                            assert(walks_from(g, front, (i + 1) as nat, (f + 1) as nat)
                                == walks_from(g, front, i as nat, (f + 1) as nat) + walks(
                                g,
                                u,
                                true,
                                true,
                                (f + 1) as nat,
                            ));
                            lemma_through_grows(
                                g,
                                front,
                                (i + 1) as nat,
                                front.len(),
                                true,
                                true,
                                (f + 1) as nat,
                            );
                            assert(walks(g, you, true, true, (depth + f + 1) as nat) == start + walks_from(
                                g,
                                front,
                                front.len(),
                                (f + 1) as nat,
                            ));
                            assert(walks(g, you, true, true, (depth + f + 1) as nat) > u64::MAX);
                        }
                        return Err(PathError::Overflow);
                    }
                    tot += 1;
                    proof {
                        assert forall|f: nat| tot + #[trigger] walks_from(
                            g,
                            before,
                            before.len(),
                            f,
                        ) == start + walks_from(g, front, i as nat, (f + 1) as nat) + walks_from(
                            g,
                            succ,
                            (j + 1) as nat,
                            f,
                        ) by {
                            assert(before_tot + walks_from(g, before, before.len(), f) == start
                                + walks_from(g, front, i as nat, (f + 1) as nat) + walks_from(
                                g,
                                succ,
                                j as nat,
                                f,
                            ));
                            assert(walks(g, w, true, true, f) == 1);
                            assert(walks_from(g, succ, (j + 1) as nat, f) == walks_from(
                                g,
                                succ,
                                j as nat,
                                f,
                            ) + walks(g, w, true, true, f));
                        }
                        assert forall|f: nat| #[trigger]
                            all_complete(g, before, before.len() as int, f) <==> (all_complete(
                            g,
                            front,
                            i as int,
                            (f + 1) as nat,
                        ) && all_complete(g, succ, j + 1, f)) by {
                            assert(all_complete(g, before, before.len() as int, f) <==> (
                            all_complete(g, front, i as int, (f + 1) as nat) && all_complete(
                                g,
                                succ,
                                j as int,
                                f,
                            )));
                        }
                    }
                }
                j += 1;
            }
            proof {
                assert forall|f: nat| tot + #[trigger] walks_from(
                    g,
                    nxt,
                    nxt.len(),
                    f,
                ) == start + walks_from(g, front, (i + 1) as nat, (f + 1) as nat) by {
                    assert(tot + walks_from(g, nxt, nxt.len(), f) == start + walks_from(
                        g,
                        front,
                        i as nat,
                        (f + 1) as nat,
                    ) + walks_from(g, succ, succ.len(), f));
                    lemma_walks_step(g, u, f);
                }
                assert forall|f: nat| #[trigger]
                    all_complete(g, nxt, nxt.len() as int, f) <==> all_complete(
                    g,
                    front,
                    i + 1,
                    (f + 1) as nat,
                ) by {
                    assert(all_complete(g, nxt, nxt.len() as int, f) <==> (all_complete(
                        g,
                        front,
                        i as int,
                        (f + 1) as nat,
                    ) && all_complete(g, succ, succ.len() as int, f)));
                    if all_complete(g, front, i + 1, (f + 1) as nat) {
                        assert(complete(g, front[i as int], true, (f + 1) as nat));
                        assert forall|t: int| 0 <= t < i implies complete(
                            g,
                            #[trigger] front[t],
                            true,
                            (f + 1) as nat,
                        ) by {}
                    }
                }
            }
            i += 1;
        }
        proof {
            assert forall|f: nat| walks(g, you, true, true, (depth + 1 + f) as nat) == tot
                + #[trigger] walks_from(g, nxt, nxt.len(), f) by {
                assert(walks(g, you, true, true, (depth + f + 1) as nat) == start + walks_from(
                    g,
                    front,
                    front.len(),
                    (f + 1) as nat,
                ));
                assert(tot + walks_from(g, nxt, nxt.len(), f) == start + walks_from(
                    g,
                    front,
                    front.len(),
                    (f + 1) as nat,
                ));
            }
            assert forall|f: nat| #[trigger]
                all_complete(g, nxt, nxt.len() as int, f) <==> complete(
                g,
                you,
                true,
                (depth + 1 + f) as nat,
            ) by {
                assert(all_complete(g, front, front.len() as int, (f + 1) as nat) <==> complete(
                    g,
                    you,
                    true,
                    (depth + f + 1) as nat,
                ));
                assert(all_complete(g, nxt, nxt.len() as int, f) <==> all_complete(
                    g,
                    front,
                    front.len() as int,
                    (f + 1) as nat,
                ));
            }
        }
        proof {
            assert(front.skip(level as int) =~= Seq::<Seq<char>>::empty());
            assert(names(q@) =~= nxt);
        }
        depth += 1;
    }
    if q.len() == 0 {
        proof {
            assert(all_complete(g, names(q@), 0, 0));
            assert(walks_from(g, names(q@), 0, 0) == 0);
            assert(complete(g, you, true, depth as nat));
            assert(walks(g, you, true, true, depth as nat) == tot);
        }
        return Ok(tot);
    }
    proof {
        assert(names(q@)[0] != out_name());
        assert(!complete(g, names(q@)[0], true, 0));
        assert(!all_complete(g, names(q@), q@.len() as int, 0));
        assert(!complete(g, you, true, depth as nat));
    }
    Err(PathError::TooDeep)
}

// ---------------------------------------------------------------------------
// The step limit is enough
// ---------------------------------------------------------------------------

/// `fuel` is the least number of steps within which every path from `v`
/// ends.
pub open spec fn needs(g: Map<Seq<char>, Seq<Seq<char>>>, v: Seq<char>, strict: bool, fuel: nat) -> bool {
    complete(g, v, strict, fuel) && (fuel == 0 || !complete(g, v, strict, (fuel - 1) as nat))
}

/// Where every path from `v` ends within some number of steps, there is a
/// least such number.
pub proof fn lemma_least_fuel(g: Map<Seq<char>, Seq<Seq<char>>>, v: Seq<char>, strict: bool, fuel: nat) -> (
    least: nat
)
    requires
        complete(g, v, strict, fuel),
    ensures
        least <= fuel,
        needs(g, v, strict, least),
    decreases fuel,
{
    if fuel == 0 || !complete(g, v, strict, (fuel - 1) as nat) {
        fuel
    } else {
        lemma_least_fuel(g, v, strict, (fuel - 1) as nat)
    }
}

/// A device that needs `fuel` steps starts a path of `fuel` devices, each
/// with a line and each needing one step less than the one before.
pub proof fn lemma_longest_path(g: Map<Seq<char>, Seq<Seq<char>>>, v: Seq<char>, strict: bool, fuel: nat) -> (
    path: Seq<Seq<char>>
)
    requires
        needs(g, v, strict, fuel),
    ensures
        path.len() == fuel,
        forall|k: int|
            0 <= k < fuel ==> g.contains_key(#[trigger] path[k]) && needs(
                g,
                path[k],
                strict,
                (fuel - k) as nat,
            ),
    decreases fuel,
{
    if fuel == 0 {
        Seq::empty()
    } else {
        assert(v != out_name());
        assert(g.contains_key(v));
        if fuel == 1 {
            seq![v]
        } else {
            let t = choose|t: int|
                0 <= t < g[v].len() && !complete(g, #[trigger] g[v][t], strict, (fuel - 2) as nat);
            let w = g[v][t];
            assert(complete(g, w, strict, (fuel - 1) as nat));
            let rest = lemma_longest_path(g, w, strict, (fuel - 1) as nat);
            let path = seq![v] + rest;
            assert forall|k: int| 0 <= k < fuel implies g.contains_key(#[trigger] path[k]) && needs(
                g,
                path[k],
                strict,
                (fuel - k) as nat,
            ) by {
                if k > 0 {
                    assert(path[k] == rest[k - 1]);
                }
            }
            path
        }
    }
}

/// Where the devices with a line are finitely many and every path from `v`
/// ends within some number of steps, every path ends within as many steps
/// as there are devices with a line: no path comes by a device twice. So
/// the step limit is enough, unless the devices are more than a `usize`
/// counts.
pub proof fn lemma_step_limit_suffices(
    g: Map<Seq<char>, Seq<Seq<char>>>,
    v: Seq<char>,
    strict: bool,
    fuel: nat,
)
    requires
        g.dom().finite(),
        complete(g, v, strict, fuel),
    ensures
        complete(g, v, strict, g.dom().len()),
        g.dom().len() <= usize::MAX ==> complete(g, v, strict, step_limit(g)),
{
    let least = lemma_least_fuel(g, v, strict, fuel);
    let path = lemma_longest_path(g, v, strict, least);
    assert(path.no_duplicates()) by {
        assert forall|k: int, l: int| 0 <= k < path.len() && 0 <= l < path.len() && k != l implies path[k]
            != path[l] by {
            if path[k] == path[l] {
                let (a, b) = if k < l {
                    (k, l)
                } else {
                    (l, k)
                };
                assert(needs(g, path[a], strict, (least - a) as nat));
                assert(needs(g, path[b], strict, (least - b) as nat));
                lemma_complete_more(
                    g,
                    path[b],
                    strict,
                    true,
                    true,
                    (least - b) as nat,
                    (least - a - 1) as nat,
                );
            }
        }
    }
    path.unique_seq_to_set();
    assert(path.to_set().subset_of(g.dom())) by {
        assert forall|x: Seq<char>| path.to_set().contains(x) implies g.dom().contains(x) by {
            let k = choose|k: int| 0 <= k < path.len() && path[k] == x;
            assert(g.contains_key(path[k]));
        }
    }
    vstd::set_lib::lemma_len_subset(path.to_set(), g.dom());
    lemma_complete_more(g, v, strict, true, true, least, g.dom().len());
    if g.dom().len() < usize::MAX {
        lemma_complete_more(g, v, strict, true, true, least, step_limit(g));
    }
}

/// The wiring that lines describe has finitely many devices with a line.
pub proof fn lemma_wiring_finite(lines: Seq<Seq<char>>)
    ensures
        wiring(lines) is Some ==> wiring(lines)->Some_0.dom().finite(),
    decreases lines.len(),
{
    if lines.len() > 0 {
        lemma_wiring_finite(lines.drop_last());
    }
}

} // verus!
