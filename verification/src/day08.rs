//! Junction boxes in space: the closest pairs are wired together one after
//! another, and the sizes of the circuits that form are multiplied.
use crate::ordered::{lemma_to_set_last, values_by_key, values_in_key_order};
use crate::text::{
    chars_of, line_views, parse_i64, read_i64, split, split_at_char, trim, trimmed, views,
};
use std::cmp::Ordering;
use std::collections::{HashMap, HashSet};
use vstd::prelude::*;
use vstd::std_specs::iter::IteratorSpec;

verus! {

/// A junction box.
#[derive(Clone, Copy, Debug, PartialEq, Eq, Structural)]
pub struct Point3D {
    pub x: i64,
    pub y: i64,
    pub z: i64,
}

/// Why a line is no junction box.
#[derive(Clone, Copy, Debug, PartialEq, Eq, Structural)]
pub enum PointError {
    /// The line does not have exactly three fields between two commas.
    FieldCount,
    /// The first field is no `i64`.
    BadX,
    /// The second field is no `i64`.
    BadY,
    /// The third field is no `i64`.
    BadZ,
}

/// The box that a line writes: three `i64` fields between commas, white
/// space around each field ignored.
pub open spec fn parse_point(s: Seq<char>) -> Result<Point3D, PointError> {
    let fields = split(s, ',');
    if fields.len() != 3 {
        Err(PointError::FieldCount)
    } else {
        match parse_i64(trim(fields[0])) {
            None => Err(PointError::BadX),
            Some(x) => match parse_i64(trim(fields[1])) {
                None => Err(PointError::BadY),
                Some(y) => match parse_i64(trim(fields[2])) {
                    None => Err(PointError::BadZ),
                    Some(z) => Ok(Point3D { x, y, z }),
                },
            },
        }
    }
}

/// The boxes that the lines write, in order; a line that writes none is
/// passed over.
pub open spec fn points_of(lines: Seq<Seq<char>>) -> Seq<Point3D>
    decreases lines.len(),
{
    if lines.len() == 0 {
        Seq::empty()
    } else {
        let rest = points_of(lines.drop_last());
        match parse_point(lines.last()) {
            Ok(p) => rest.push(p),
            Err(_) => rest,
        }
    }
}

/// The square of the straight-line distance between two boxes.
pub open spec fn sq_dist(a: Point3D, b: Point3D) -> int {
    (a.x - b.x) * (a.x - b.x) + (a.y - b.y) * (a.y - b.y) + (a.z - b.z) * (a.z - b.z)
}

/// The square of a difference of two `i64`, or `None` where it is more than
/// `2^64`.
fn square_of_difference(a: i64, b: i64) -> (sq: Option<i128>)
    ensures
        match sq {
            Some(v) => v == (a - b) * (a - b) && 0 <= v <= 0x1_0000_0000_0000_0000,
            None => (a - b) * (a - b) > i64::MAX,
        },
{
    let d: i128 = a as i128 - b as i128;
    if d > 0x1_0000_0000 || d < -0x1_0000_0000 {
        assert(d * d > 0x7fff_ffff_ffff_ffff) by (nonlinear_arith)
            requires
                d > 0x1_0000_0000 || d < -0x1_0000_0000,
        ;
        return None;
    }
    assert(0 <= d * d <= 0x1_0000_0000_0000_0000) by (nonlinear_arith)
        requires
            -0x1_0000_0000 <= d <= 0x1_0000_0000,
    ;
    Some(d * d)
}

impl Point3D {
    /// Reads a box from a line such as `162,817,812`.
    pub fn from_string(s: &str) -> (res: Result<Point3D, PointError>)
        ensures
            res == parse_point(s@),
    {
        let chars: Vec<char> = chars_of(s);
        let coords: Vec<Vec<char>> = split_at_char(&chars, ',');
        if coords.len() != 3 {
            return Err(PointError::FieldCount);
        }
        assert(views(coords@)[0] == coords@[0]@ && views(coords@)[1] == coords@[1]@ && views(
            coords@,
        )[2] == coords@[2]@);
        let x: i64 = match read_i64(&trimmed(&coords[0])) {
            Some(x) => x,
            None => {
                return Err(PointError::BadX);
            },
        };
        let y: i64 = match read_i64(&trimmed(&coords[1])) {
            Some(y) => y,
            None => {
                return Err(PointError::BadY);
            },
        };
        let z: i64 = match read_i64(&trimmed(&coords[2])) {
            Some(z) => z,
            None => {
                return Err(PointError::BadZ);
            },
        };
        Ok(Point3D { x, y, z })
    }

    /// The squared distance to another box, unless an `i64` cannot hold it.
    pub fn sqd_dist(&self, other: &Point3D) -> (d: Option<i64>)
        ensures
            match d {
                Some(v) => v == sq_dist(*self, *other),
                None => sq_dist(*self, *other) > i64::MAX,
            },
    {
        let ghost dx = self.x - other.x;
        let ghost dy = self.y - other.y;
        let ghost dz = self.z - other.z;
        assert(dx * dx >= 0 && dy * dy >= 0 && dz * dz >= 0) by (nonlinear_arith);
        let sx: i128 = match square_of_difference(self.x, other.x) {
            Some(v) => v,
            None => {
                return None;
            },
        };
        let sy: i128 = match square_of_difference(self.y, other.y) {
            Some(v) => v,
            None => {
                return None;
            },
        };
        let sz: i128 = match square_of_difference(self.z, other.z) {
            Some(v) => v,
            None => {
                return None;
            },
        };
        let sum: i128 = sx + sy + sz;
        if sum > i64::MAX as i128 {
            None
        } else {
            Some(sum as i64)
        }
    }
}

/// Reads the boxes: one per line, lines that write none left out.
pub fn parse_points(lines: &Vec<String>) -> (points: Vec<Point3D>)
    ensures
        points@ == points_of(line_views(lines@)),
{
    let mut points: Vec<Point3D> = Vec::new();
    let mut i: usize = 0;
    assert(line_views(lines@).take(0) =~= Seq::<Seq<char>>::empty());
    while i < lines.len()
        invariant
            i <= lines.len(),
            points@ == points_of(line_views(lines@).take(i as int)),
        decreases lines.len() - i,
    {
        proof {
            let t = line_views(lines@).take(i + 1);
            assert(t.drop_last() == line_views(lines@).take(i as int));
            assert(t.last() == lines@[i as int]@);
        }
        match Point3D::from_string(lines[i].as_str()) {
            Ok(p) => {
                points.push(p);
            },
            Err(_) => {},
        }
        i += 1;
    }
    assert(line_views(lines@).take(lines.len() as int) == line_views(lines@));
    points
}

// ---------------------------------------------------------------------------
// The table of distances
// ---------------------------------------------------------------------------

/// Every pair of boxes has a squared distance that an `i64` holds.
pub open spec fn distances_fit(pts: Seq<Point3D>) -> bool {
    forall|i: int, j: int| 0 <= i < j < pts.len() ==> #[trigger] sq_dist(pts[i], pts[j]) <= i64::MAX
}

/// The table `m` after the pairs `(i, k)`, `i < k < j`, were entered under
/// their squared distances, each replacing an earlier pair at the same
/// distance.
pub open spec fn table_row(
    pts: Seq<Point3D>,
    m: Map<i64, (usize, usize)>,
    i: int,
    j: int,
) -> Map<i64, (usize, usize)>
    decreases j - i,
{
    if j <= i + 1 {
        m
    } else {
        table_row(pts, m, i, j - 1).insert(
            sq_dist(pts[i], pts[j - 1]) as i64,
            (i as usize, (j - 1) as usize),
        )
    }
}

/// The table after all pairs whose first box comes before `i` were entered.
pub open spec fn table_before(pts: Seq<Point3D>, i: int) -> Map<i64, (usize, usize)>
    decreases i,
{
    if i <= 0 {
        Map::empty()
    } else {
        table_row(pts, table_before(pts, i - 1), i - 1, pts.len() as int)
    }
}

/// For every squared distance that occurs, the last pair of boxes at that
/// distance, pairs taken in order of the first box and then of the second.
pub open spec fn distance_table(pts: Seq<Point3D>) -> Map<i64, (usize, usize)> {
    table_before(pts, pts.len() as int)
}

/// Every pair in the table is a pair of two boxes, the first before the
/// second.
pub open spec fn links_valid(links: Seq<(usize, usize)>, n: int) -> bool {
    forall|k: int| 0 <= k < links.len() ==> (#[trigger] links[k]).0 < links[k].1 < n
}

/// Every value of the table is a pair of two boxes.
pub open spec fn table_valid(m: Map<i64, (usize, usize)>, n: int) -> bool {
    forall|d: i64| m.contains_key(d) ==> (#[trigger] m[d]).0 < m[d].1 < n
}

/// Enters every pair of boxes into a table under its squared distance.
pub fn build_distance_table(points: &Vec<Point3D>) -> (res: Option<HashMap<i64, (usize, usize)>>)
    ensures
        match res {
            Some(m) => distances_fit(points@) && m@ == distance_table(points@) && table_valid(
                m@,
                points@.len() as int,
            ),
            None => !distances_fit(points@),
        },
{
    broadcast use vstd::std_specs::hash::group_hash_axioms;

    let n: usize = points.len();
    let mut m: HashMap<i64, (usize, usize)> = HashMap::new();
    let mut i: usize = 0;
    while i < n
        invariant
            n == points@.len(),
            i <= n,
            m@ == table_before(points@, i as int),
            table_valid(m@, n as int),
            forall|a: int, b: int|
                0 <= a < i && a < b < n ==> #[trigger] sq_dist(points@[a], points@[b]) <= i64::MAX,
        decreases n - i,
    {
        let mut j: usize = i + 1;
        while j < n
            invariant
                n == points@.len(),
                i < n,
                i < j <= n,
                m@ == table_row(points@, table_before(points@, i as int), i as int, j as int),
                table_valid(m@, n as int),
                forall|a: int, b: int|
                    0 <= a < i && a < b < n ==> #[trigger] sq_dist(points@[a], points@[b])
                        <= i64::MAX,
                forall|b: int|
                    i < b < j ==> #[trigger] sq_dist(points@[i as int], points@[b]) <= i64::MAX,
            decreases n - j,
        {
            match points[i].sqd_dist(&points[j]) {
                Some(dist) => {
                    m.insert(dist, (i, j));
                },
                None => {
                    assert(sq_dist(points@[i as int], points@[j as int]) > i64::MAX);
                    return None;
                },
            }
            j += 1;
        }
        i += 1;
    }
    Some(m)
}

// ---------------------------------------------------------------------------
// Wiring the circuits
// ---------------------------------------------------------------------------

/// Every box in a circuit of its own, named by the box's position.
pub open spec fn own_circuits(n: int) -> Seq<usize> {
    Seq::new(n as nat, |k: int| k as usize)
}

/// The circuits after every box of circuit `from` has moved to circuit `to`.
pub open spec fn relabel(labels: Seq<usize>, from: usize, to: usize) -> Seq<usize> {
    Seq::new(
        labels.len(),
        |k: int|
            if labels[k] == from {
                to
            } else {
                labels[k]
            },
    )
}

/// The circuits after the two boxes of a link were wired together: the
/// circuit of the second box joins that of the first.
pub open spec fn join(labels: Seq<usize>, link: (usize, usize)) -> Seq<usize> {
    relabel(labels, labels[link.1 as int], labels[link.0 as int])
}

/// All boxes are in one circuit, and there is a box.
pub open spec fn all_joined(labels: Seq<usize>) -> bool {
    labels.len() > 0 && forall|k: int| 0 <= k < labels.len() ==> #[trigger] labels[k] == labels[0]
}

/// How far the wiring has come.
pub struct Progress {
    /// The circuit of each box.
    pub circuits: Seq<usize>,
    /// The link that brought all boxes into one circuit, once there was one.
    pub closing: Option<(usize, usize)>,
    /// A link was due and none was left.
    pub exhausted: bool,
}

/// The wiring after at most `steps` links, taken in order from `links`: it
/// ends early on the link that brings all boxes into one circuit, and where
/// a link is due and none is left.
pub open spec fn progress(n: int, links: Seq<(usize, usize)>, steps: int) -> Progress
    decreases steps,
{
    if steps <= 0 {
        Progress { circuits: own_circuits(n), closing: None, exhausted: false }
    } else {
        let before = progress(n, links, steps - 1);
        if before.closing is Some || before.exhausted {
            before
        } else if steps - 1 >= links.len() {
            Progress { circuits: before.circuits, closing: None, exhausted: true }
        } else {
            let circuits = join(before.circuits, links[steps - 1]);
            Progress {
                circuits,
                closing: if all_joined(circuits) {
                    Some(links[steps - 1])
                } else {
                    None
                },
                exhausted: false,
            }
        }
    }
}

/// Once the wiring has ended, more steps change nothing.
pub proof fn lemma_progress_ended(n: int, links: Seq<(usize, usize)>, k: int, steps: int)
    requires
        0 <= k <= steps,
        progress(n, links, k).closing is Some || progress(n, links, k).exhausted,
    ensures
        progress(n, links, steps) == progress(n, links, k),
    decreases steps - k,
{
    if k < steps {
        lemma_progress_ended(n, links, k, steps - 1);
    }
}

/// All boxes are in one circuit exactly when the circuits that occur are
/// one.
pub proof fn lemma_one_circuit(labels: Seq<usize>)
    ensures
        all_joined(labels) <==> labels.to_set().len() == 1,
{
    broadcast use vstd::seq_lib::seq_to_set_is_finite;

    let s = labels.to_set();
    if labels.len() == 0 {
        assert(s =~= Set::<usize>::empty());
    } else {
        let first = labels[0];
        assert(s.contains(first));
        if all_joined(labels) {
            assert(s =~= set![first]) by {
                assert forall|x: usize| s.contains(x) implies x == first by {
                    let k = choose|k: int| 0 <= k < labels.len() && labels[k] == x;
                    assert(labels[k] == labels[0]);
                }
            }
        } else {
            let k = choose|k: int| 0 <= k < labels.len() && #[trigger] labels[k] != labels[0];
            let two = set![first].insert(labels[k]);
            assert(s.contains(labels[k]));
            assert(two.subset_of(s));
            assert(two.len() == 2);
            vstd::set_lib::lemma_len_subset(two, s);
        }
    }
}

/// Decides whether all boxes are in one circuit: whether the circuits that
/// occur are exactly one.
fn check_all_joined(labels: &Vec<usize>) -> (joined: bool)
    ensures
        joined == all_joined(labels@),
{
    broadcast use vstd::std_specs::hash::group_hash_axioms;

    let mut unique_idxs: HashSet<usize> = HashSet::new();
    let mut k: usize = 0;
    assert(labels@.take(0).to_set() =~= Set::<usize>::empty());
    while k < labels.len()
        invariant
            k <= labels@.len(),
            unique_idxs@ == labels@.take(k as int).to_set(),
        decreases labels.len() - k,
    {
        unique_idxs.insert(labels[k]);
        proof {
            let t = labels@.take(k + 1);
            assert(t.drop_last() == labels@.take(k as int));
            lemma_to_set_last(t);
        }
        k += 1;
    }
    proof {
        assert(labels@.take(labels@.len() as int) == labels@);
        lemma_one_circuit(labels@);
    }
    unique_idxs.len() == 1
}

/// Moves every box of circuit `from` to circuit `to`.
fn move_circuit(labels: &mut Vec<usize>, from: usize, to: usize)
    ensures
        final(labels)@ == relabel(old(labels)@, from, to),
{
    let ghost before = labels@;
    let n: usize = labels.len();
    let mut k: usize = 0;
    while k < n
        invariant
            n == before.len(),
            labels@.len() == n,
            k <= n,
            forall|t: int| 0 <= t < k ==> #[trigger] labels@[t] == relabel(before, from, to)[t],
            forall|t: int| k <= t < n ==> #[trigger] labels@[t] == before[t],
        decreases n - k,
    {
        if labels[k] == from {
            labels[k] = to;
        }
        k += 1;
    }
    assert(labels@ =~= relabel(before, from, to));
}

/// What the wiring came to, in executable form.
pub struct Wiring {
    /// The circuit of each box.
    pub circuits: Vec<usize>,
    /// The link that brought all boxes into one circuit, once there was one.
    pub closing: Option<(usize, usize)>,
    /// A link was due and none was left.
    pub exhausted: bool,
}

impl Wiring {
    /// The wiring as a mathematical value.
    pub open spec fn view(&self) -> Progress {
        Progress { circuits: self.circuits@, closing: self.closing, exhausted: self.exhausted }
    }
}

/// Wires up to `limit` links in order, until all `n` boxes are in one
/// circuit.
pub fn wire(n: usize, links: &Vec<(usize, usize)>, limit: usize) -> (w: Wiring)
    requires
        links_valid(links@, n as int),
    ensures
        w.view() == progress(n as int, links@, limit as int),
        w.circuits@.len() == n,
        forall|t: int| 0 <= t < n ==> #[trigger] w.circuits@[t] < n,
{
    let mut circuit_map: Vec<usize> = Vec::new();
    let mut k: usize = 0;
    while k < n
        invariant
            k <= n,
            circuit_map@.len() == k,
            forall|t: int| 0 <= t < k ==> #[trigger] circuit_map@[t] == t,
        decreases n - k,
    {
        circuit_map.push(k);
        k += 1;
    }
    assert(circuit_map@ =~= own_circuits(n as int));
    let mut idx: usize = 0;
    while idx < limit
        invariant
            idx <= limit,
            links_valid(links@, n as int),
            circuit_map@.len() == n,
            forall|t: int| 0 <= t < n ==> #[trigger] circuit_map@[t] < n,
            progress(n as int, links@, idx as int) == (Progress {
                circuits: circuit_map@,
                closing: None,
                exhausted: false,
            }),
        decreases limit - idx,
    {
        if idx >= links.len() {
            proof {
                lemma_progress_ended(n as int, links@, idx + 1, limit as int);
            }
            return Wiring { circuits: circuit_map, closing: None, exhausted: true };
        }
        let link: (usize, usize) = links[idx];
        let circuit_i: usize = circuit_map[link.0];
        let circuit_j: usize = circuit_map[link.1];
        move_circuit(&mut circuit_map, circuit_j, circuit_i);
        if check_all_joined(&circuit_map) {
            proof {
                lemma_progress_ended(n as int, links@, idx + 1, limit as int);
            }
            return Wiring { circuits: circuit_map, closing: Some(link), exhausted: false };
        }
        idx += 1;
    }
    Wiring { circuits: circuit_map, closing: None, exhausted: false }
}

// ---------------------------------------------------------------------------
// Circuit sizes and their product
// ---------------------------------------------------------------------------

/// How many of the first `k` boxes are in circuit `c`.
pub open spec fn count_in(labels: Seq<usize>, c: int, k: int) -> int
    decreases k,
{
    if k <= 0 {
        0
    } else {
        count_in(labels, c, k - 1) + if labels[k - 1] == c {
            1int
        } else {
            0int
        }
    }
}

/// The sizes of the circuits named below `c`, in order of their names;
/// names without a box are left out.
pub open spec fn sizes_below(labels: Seq<usize>, c: int) -> Seq<usize>
    decreases c,
{
    if c <= 0 {
        Seq::empty()
    } else {
        let before = sizes_below(labels, c - 1);
        let size = count_in(labels, c - 1, labels.len() as int);
        if size > 0 {
            before.push(size as usize)
        } else {
            before
        }
    }
}

/// The sizes of the circuits.
pub open spec fn circuit_sizes(labels: Seq<usize>) -> Seq<usize> {
    sizes_below(labels, labels.len() as int)
}

/// A circuit holds at most all the boxes counted.
pub proof fn lemma_count_bound(labels: Seq<usize>, c: int, k: int)
    requires
        0 <= k,
    ensures
        0 <= count_in(labels, c, k) <= k,
    decreases k,
{
    if k > 0 {
        lemma_count_bound(labels, c, k - 1);
    }
}

/// The sizes of the circuits with the given names, in the order of the
/// names.
pub open spec fn sizes_of(labels: Seq<usize>, keys: Seq<usize>) -> Seq<usize> {
    keys.map_values(|c: usize| count_in(labels, c as int, labels.len() as int) as usize)
}

/// In whatever order the circuits are named, each once, their sizes are the
/// same numbers, each as often, as in order of their names.
pub proof fn lemma_sizes_in_any_order(labels: Seq<usize>, keys: Seq<usize>, n: int)
    requires
        0 <= n <= usize::MAX,
        keys.no_duplicates(),
        forall|x: usize|
            #[trigger] keys.contains(x) <==> (x < n && count_in(
                labels,
                x as int,
                labels.len() as int,
            ) > 0),
    ensures
        sizes_of(labels, keys).to_multiset() == sizes_below(labels, n).to_multiset(),
    decreases n,
{
    broadcast use vstd::multiset::group_multiset_axioms;

    if n == 0 {
        assert(keys.len() == 0) by {
            if keys.len() > 0 {
                assert(keys.contains(keys[0]));
            }
        }
        assert(sizes_of(labels, keys) =~= sizes_below(labels, n));
    } else {
        let c = (n - 1) as usize;
        let size = count_in(labels, n - 1, labels.len() as int);
        if size > 0 {
            assert(keys.contains(c));
            let p = choose|p: int| 0 <= p < keys.len() && keys[p] == c;
            let rest = keys.remove(p);
            assert(rest.no_duplicates()) by {
                assert forall|i: int, j: int|
                    0 <= i < rest.len() && 0 <= j < rest.len() && i != j implies rest[i]
                    != rest[j] by {
                    let i0 = if i < p {
                        i
                    } else {
                        i + 1
                    };
                    let j0 = if j < p {
                        j
                    } else {
                        j + 1
                    };
                    assert(rest[i] == keys[i0] && rest[j] == keys[j0]);
                }
            }
            assert forall|x: usize| #[trigger] rest.contains(x) <==> (x < n - 1 && count_in(
                labels,
                x as int,
                labels.len() as int,
            ) > 0) by {
                if rest.contains(x) {
                    let i = choose|i: int| 0 <= i < rest.len() && rest[i] == x;
                    let i0 = if i < p {
                        i
                    } else {
                        i + 1
                    };
                    assert(keys[i0] == x);
                    assert(keys.contains(x));
                    assert(x != c);
                }
                if x < n - 1 && count_in(labels, x as int, labels.len() as int) > 0 {
                    assert(keys.contains(x));
                    let i = choose|i: int| 0 <= i < keys.len() && keys[i] == x;
                    let i1 = if i < p {
                        i
                    } else {
                        i - 1
                    };
                    assert(rest[i1] == x);
                }
            }
            lemma_sizes_in_any_order(labels, rest, n - 1);
            let all = sizes_of(labels, keys);
            assert(all.remove(p) =~= sizes_of(labels, rest));
            vstd::seq_lib::to_multiset_remove(all, p);
            vstd::seq_lib::to_multiset_build(sizes_below(labels, n - 1), size as usize);
            vstd::seq_lib::to_multiset_contains(all, all[p]);
            assert(all.contains(all[p]));
            assert(all[p] == size as usize);
            assert(all.to_multiset() =~= all.to_multiset().remove(all[p]).insert(all[p]));
            assert(sizes_below(labels, n) == sizes_below(labels, n - 1).push(size as usize));
            assert(all.to_multiset() =~= sizes_below(labels, n).to_multiset());
        } else {
            assert forall|x: usize| #[trigger] keys.contains(x) <==> (x < n - 1 && count_in(
                labels,
                x as int,
                labels.len() as int,
            ) > 0) by {
                lemma_count_bound(labels, n - 1, labels.len() as int);
            }
            lemma_sizes_in_any_order(labels, keys, n - 1);
            assert(sizes_below(labels, n) == sizes_below(labels, n - 1));
        }
    }
}

/// Counts the boxes of every circuit and lists the sizes of the circuits
/// that have a box, in no order that can be told beforehand.
pub fn count_circuits(labels: &Vec<usize>) -> (sizes: Vec<usize>)
    requires
        forall|k: int| 0 <= k < labels@.len() ==> #[trigger] labels@[k] < labels@.len(),
    ensures
        sizes@.to_multiset() == circuit_sizes(labels@).to_multiset(),
{
    broadcast use vstd::std_specs::hash::group_hash_axioms;

    let n: usize = labels.len();
    let mut circuit_counts: HashMap<usize, usize> = HashMap::new();
    let mut k: usize = 0;
    while k < n
        invariant
            n == labels@.len(),
            k <= n,
            forall|c: usize|
                #[trigger] circuit_counts@.contains_key(c) <==> count_in(
                    labels@,
                    c as int,
                    k as int,
                ) > 0,
            forall|c: usize|
                circuit_counts@.contains_key(c) ==> #[trigger] circuit_counts@[c] == count_in(
                    labels@,
                    c as int,
                    k as int,
                ),
        decreases n - k,
    {
        let circuit: usize = labels[k];
        proof {
            lemma_count_bound(labels@, circuit as int, k as int);
        }
        let seen: usize = match circuit_counts.get(&circuit) {
            Some(count) => *count,
            None => 0,
        };
        circuit_counts.insert(circuit, seen + 1);
        k += 1;
    }
    let mut sizes: Vec<usize> = Vec::new();
    let iter = circuit_counts.keys();
    let ghost keys = iter.remaining();
    for circuit in it: iter
        invariant
            it.seq() == keys,
            keys.unref().to_set() == circuit_counts@.dom(),
            sizes@.len() == it.index(),
            forall|j: int| 0 <= j < sizes@.len() ==> #[trigger] sizes@[j] == circuit_counts@[*keys[j]],
    {
        proof {
            assert(keys.unref()[it.index()] == *circuit);
            assert(keys.unref().to_set().contains(*circuit));
            assert(circuit_counts@.contains_key(*circuit));
        }
        let count: usize = match circuit_counts.get(circuit) {
            Some(count) => *count,
            None => 0,
        };
        sizes.push(count);
    }
    proof {
        let names = keys.unref();
        assert(names.no_duplicates()) by {
            assert forall|i: int, j: int|
                0 <= i < names.len() && 0 <= j < names.len() && i != j implies names[i]
                != names[j] by {
                assert(keys[i] != keys[j]);
            }
        }
        assert forall|x: usize| #[trigger] names.contains(x) <==> (x < n && count_in(
            labels@,
            x as int,
            labels@.len() as int,
        ) > 0) by {
            assert(names.contains(x) <==> names.to_set().contains(x));
            assert(circuit_counts@.contains_key(x) <==> circuit_counts@.dom().contains(x));
            if count_in(labels@, x as int, n as int) > 0 {
                lemma_counted_is_named(labels@, x as int, n as int);
            }
        }
        assert(sizes@ =~= sizes_of(labels@, names)) by {
            assert forall|j: int| 0 <= j < sizes@.len() implies sizes@[j] == sizes_of(
                labels@,
                names,
            )[j] by {
                assert(names[j] == *keys[j]);
            }
        }
        lemma_sizes_in_any_order(labels@, names, n as int);
    }
    sizes
}

/// A circuit that holds a box is the circuit of a box.
pub proof fn lemma_counted_is_named(labels: Seq<usize>, c: int, k: int)
    requires
        0 <= k <= labels.len(),
        count_in(labels, c, k) > 0,
    ensures
        exists|t: int| 0 <= t < k && #[trigger] labels[t] == c,
    decreases k,
{
    if labels[k - 1] != c {
        lemma_counted_is_named(labels, c, k - 1);
        let t = choose|t: int| 0 <= t < k - 1 && #[trigger] labels[t] == c;
        assert(0 <= t < k && labels[t] == c);
    } else {
        assert(labels[k - 1] == c);
    }
}

/// Largest first.
pub open spec fn descending(s: Seq<usize>) -> bool {
    forall|i: int, j: int| 0 <= i < j < s.len() ==> s[i] >= s[j]
}

/// The product of the first `k` numbers.
pub open spec fn product_of_first(s: Seq<usize>, k: int) -> int
    decreases k,
{
    if k <= 0 {
        1
    } else {
        product_of_first(s, k - 1) * s[k - 1]
    }
}

/// The product of the first three numbers, or of all where there are fewer.
pub open spec fn product_of_three(s: Seq<usize>) -> int {
    product_of_first(
        s,
        if s.len() < 3 {
            s.len() as int
        } else {
            3
        },
    )
}

/// The order in which the sizes are put: the larger number first.
pub fn larger_first(a: &usize, b: &usize) -> (o: Ordering)
    ensures
        o is Less <==> *a > *b,
        o is Equal <==> *a == *b,
        o is Greater <==> *a < *b,
{
    if *a > *b {
        Ordering::Less
    } else if *a == *b {
        Ordering::Equal
    } else {
        Ordering::Greater
    }
}

/// Puts the sizes in order with `slice::sort_by` and `larger_first`. Assumed
/// of it: the result holds the same numbers, each as often as before, and
/// `larger_first` puts none of them after a later one.
#[verifier::external_body]
fn sort_descending(v: &mut Vec<usize>)
    ensures
        descending(final(v)@),
        final(v)@.to_multiset() == old(v)@.to_multiset(),
{
    v.sort_by(|a, b| larger_first(a, b));
}

/// The product of the first three numbers, unless an `i64` cannot hold it.
pub fn multiply_three(counts: &Vec<usize>) -> (product: Option<i64>)
    ensures
        match product {
            Some(p) => p == product_of_three(counts@),
            None => product_of_three(counts@) > i64::MAX,
        },
{
    let take: usize = if counts.len() < 3 {
        counts.len()
    } else {
        3
    };
    // A zero among the factors settles the product, whatever the others are.
    let mut z: usize = 0;
    while z < take
        invariant
            z <= take <= counts@.len(),
            take <= 3,
            product_of_three(counts@) == product_of_first(counts@, take as int),
            forall|t: int| 0 <= t < z ==> #[trigger] counts@[t] >= 1,
        decreases take - z,
    {
        if counts[z] == 0 {
            proof {
                lemma_product_with_zero(counts@, z as int, take as int);
            }
            return Some(0);
        }
        z += 1;
    }
    let mut acc: i64 = 1;
    let mut k: usize = 0;
    while k < take
        invariant
            k <= take <= counts@.len(),
            take <= 3,
            product_of_three(counts@) == product_of_first(counts@, take as int),
            forall|t: int| 0 <= t < take ==> #[trigger] counts@[t] >= 1,
            1 <= acc,
            acc == product_of_first(counts@, k as int),
        decreases take - k,
    {
        let count: usize = counts[k];
        proof {
            lemma_product_grows(counts@, k + 1, take as int);
            assert(product_of_first(counts@, k + 1) == acc * count);
            assert(acc * count >= acc && acc * count >= count) by (nonlinear_arith)
                requires
                    acc >= 1,
                    count >= 1,
            ;
        }
        if count as u64 > i64::MAX as u64 {
            return None;
        }
        match acc.checked_mul(count as i64) {
            Some(p) => {
                acc = p;
            },
            None => {
                return None;
            },
        }
        k += 1;
    }
    Some(acc)
}

/// A product with a factor 0 is 0.
pub proof fn lemma_product_with_zero(s: Seq<usize>, z: int, m: int)
    requires
        0 <= z < m <= s.len(),
        s[z] == 0,
    ensures
        product_of_first(s, m) == 0,
    decreases m,
{
    if z < m - 1 {
        lemma_product_with_zero(s, z, m - 1);
        let f = s[m - 1];
        assert(0 * f == 0) by (nonlinear_arith);
    } else {
        let p = product_of_first(s, m - 1);
        assert(p * 0 == 0) by (nonlinear_arith);
    }
}

/// With factors of at least one, a product is at least one.
pub proof fn lemma_product_positive(s: Seq<usize>, k: int)
    requires
        0 <= k <= s.len(),
        forall|t: int| 0 <= t < k ==> #[trigger] s[t] >= 1,
    ensures
        1 <= product_of_first(s, k),
    decreases k,
{
    if k > 0 {
        lemma_product_positive(s, k - 1);
        let p = product_of_first(s, k - 1);
        let f = s[k - 1];
        assert(p * f >= 1) by (nonlinear_arith)
            requires
                p >= 1,
                f >= 1,
        ;
    }
}

/// With factors of at least one, a longer product is no smaller.
pub proof fn lemma_product_grows(s: Seq<usize>, k: int, m: int)
    requires
        0 <= k <= m <= s.len(),
        forall|t: int| 0 <= t < m ==> #[trigger] s[t] >= 1,
    ensures
        1 <= product_of_first(s, k) <= product_of_first(s, m),
    decreases m - k,
{
    lemma_product_positive(s, k);
    if k < m {
        lemma_product_grows(s, k, m - 1);
        let p = product_of_first(s, m - 1);
        let f = s[m - 1];
        assert(p * f >= p) by (nonlinear_arith)
            requires
                p >= 1,
                f >= 1,
        ;
    }
}

// ---------------------------------------------------------------------------
// The whole run
// ---------------------------------------------------------------------------

/// Why the wiring has no result.
#[derive(Clone, Copy, Debug, PartialEq, Eq, Structural)]
pub enum CircuitError {
    /// Two boxes lie so far apart that an `i64` cannot hold their squared
    /// distance.
    DistanceOverflow,
    /// A link was due, the boxes were not yet in one circuit, and the table
    /// held no further distance.
    LinksExhausted,
    /// The product of the sizes is more than an `i64` holds.
    ProductOverflow,
}

/// What the wiring came to.
#[derive(Clone, Copy, Debug, PartialEq, Eq)]
pub struct Outcome {
    /// The product of the sizes of the three largest circuits (of all, where
    /// there are fewer).
    pub product: i64,
    /// The positions of the two boxes whose link brought all boxes into one
    /// circuit, if that happened.
    pub closing: Option<(usize, usize)>,
}

/// The links in the order in which they are wired: by ascending distance.
pub open spec fn links_of(pts: Seq<Point3D>) -> Seq<(usize, usize)> {
    values_by_key(distance_table(pts))
}

/// The wiring of the boxes after at most `limit` links.
pub open spec fn wiring_of(pts: Seq<Point3D>, limit: int) -> Progress {
    progress(pts.len() as int, links_of(pts), limit)
}

/// `sorted` holds the numbers of `sizes`, largest first.
pub open spec fn arranged(sorted: Seq<usize>, sizes: Seq<usize>) -> bool {
    descending(sorted) && sorted.to_multiset() == sizes.to_multiset()
}

/// What `connect` promises of its result for the boxes `pts` and the limit.
pub open spec fn connect_result(
    pts: Seq<Point3D>,
    limit: int,
    res: Result<Outcome, CircuitError>,
) -> bool {
    let wiring = wiring_of(pts, limit);
    match res {
        Err(CircuitError::DistanceOverflow) => !distances_fit(pts),
        Err(CircuitError::LinksExhausted) => distances_fit(pts) && wiring.exhausted,
        Err(CircuitError::ProductOverflow) => distances_fit(pts) && !wiring.exhausted && exists|
            sorted: Seq<usize>,
        |
            arranged(sorted, circuit_sizes(wiring.circuits)) && #[trigger] product_of_three(sorted)
                > i64::MAX,
        Ok(out) => distances_fit(pts) && !wiring.exhausted && out.closing == wiring.closing
            && exists|sorted: Seq<usize>|
            arranged(sorted, circuit_sizes(wiring.circuits)) && #[trigger] product_of_three(sorted)
                == out.product,
    }
}

/// Wires the closest pairs of boxes, at most `limit` of them and in order of
/// distance, until all boxes are in one circuit; then multiplies the sizes
/// of the three largest circuits.
pub fn connect(points: &Vec<Point3D>, limit: usize) -> (res: Result<Outcome, CircuitError>)
    ensures
        connect_result(points@, limit as int, res),
{
    let n: usize = points.len();
    let distance_map: HashMap<i64, (usize, usize)> = match build_distance_table(points) {
        Some(m) => m,
        None => {
            return Err(CircuitError::DistanceOverflow);
        },
    };
    let links: Vec<(usize, usize)> = values_in_key_order(&distance_map);
    proof {
        assert forall|k: int| 0 <= k < links@.len() implies (#[trigger] links@[k]).0 < links@[k].1
            < n by {
            assert(distance_map@.contains_value(links@[k]));
            let d = choose|d: i64|
                distance_map@.contains_key(d) && #[trigger] distance_map@[d] == links@[k];
            assert(distance_map@[d].0 < distance_map@[d].1 < n);
        }
    }
    let wiring: Wiring = wire(n, &links, limit);
    if wiring.exhausted {
        return Err(CircuitError::LinksExhausted);
    }
    let mut counts: Vec<usize> = count_circuits(&wiring.circuits);
    sort_descending(&mut counts);
    assert(arranged(counts@, circuit_sizes(wiring.circuits@)));
    match multiply_three(&counts) {
        Some(product) => Ok(Outcome { product, closing: wiring.closing }),
        None => Err(CircuitError::ProductOverflow),
    }
}

/// Number of links wired by `solve`.
pub const LINKS: usize = 10000;

/// A result of `solve` as one of `connect`: the product together with a
/// closing link.
pub open spec fn with_closing(
    res: Result<i64, CircuitError>,
    closing: Option<(usize, usize)>,
) -> Result<Outcome, CircuitError> {
    match res {
        Ok(product) => Ok(Outcome { product, closing }),
        Err(e) => Err(e),
    }
}

/// What `solve` promises of its result for the boxes `pts`: what `connect`
/// promises for the limit `LINKS`, with the closing link left open.
pub open spec fn solve_result(pts: Seq<Point3D>, res: Result<i64, CircuitError>) -> bool {
    exists|closing: Option<(usize, usize)>|
        connect_result(pts, LINKS as int, #[trigger] with_closing(res, closing))
}

/// The product of the sizes of the three largest circuits after the boxes
/// that the lines write were wired with at most `LINKS` links.
pub fn solve(lines: &Vec<String>) -> (res: Result<i64, CircuitError>)
    ensures
        solve_result(points_of(line_views(lines@)), res),
{
    let points: Vec<Point3D> = parse_points(lines);
    let outcome: Result<Outcome, CircuitError> = connect(&points, LINKS);
    match outcome {
        Ok(out) => {
            assert(with_closing(Ok(out.product), out.closing) == outcome);
            Ok(out.product)
        },
        Err(e) => {
            assert(with_closing(Err(e), None) == outcome);
            Err(e)
        },
    }
}

} // verus!
